//! Between netlists and expressions: the cone of an output wire is lifted
//! to an expression, and expressions are lowered to a netlist again, in
//! which equal gates share one wire.
use crate::correctness::satisfies;
use crate::error::ProtocolError;
use crate::netlist::{
    acyclic, is_topological, mentions, reads, topo_order, topo_sort_wires, Netlist,
};
use crate::optimizer::{
    all_ok, cheaper_of, equivalent, is_leaf_of, is_operator, kept, lemma_cost_of_last,
    lemma_cost_of_prefix, node_cost, node_ok, node_value, operand_count, operands, weight, Expr,
    Node,
};
use crate::utils::{copy_wires, keys_increase, Circuit, GateType};
use std::collections::BTreeMap;
use std::collections::HashSet;
use vstd::prelude::*;

verus! {

/// The wire is driven by a gate of the netlist.
pub open spec fn is_gate(c: Netlist, w: u64) -> bool {
    c.contains_key(w) && c[w].0 != GateType::INPUT
}

/// The expression says what the netlist computes on the wire: under every
/// assignment that agrees with the gates it has the bit of the wire, and its
/// leaves are wires that no gate drives.
pub open spec fn lifted(c: Netlist, w: u64, e: Expr) -> bool {
    &&& forall|vals: Map<u64, bool>| satisfies(c, vals) ==> #[trigger] e.value(vals) == vals[w]
    &&& forall|l: u64| #[trigger] e.has_leaf(l) ==> !is_gate(c, l)
}

/// A gate of the kind may read `n` wires: as many as the arity of its
/// kind, and a constant also one wire that it ignores, which is how a
/// constant is garbled. Lifting reads a constant in either form, and
/// lowering writes it without an input.
pub open spec fn fits(kind: GateType, n: nat) -> bool {
    n == operands(kind) || ((kind == GateType::CONST_0 || kind == GateType::CONST_1) && n == 1)
}

/// Every entry of the netlist reads as many wires as the arity of its
/// kind.
pub open spec fn well_sized(c: Netlist) -> bool {
    forall|w: u64| #[trigger] c.contains_key(w) ==> c[w].1@.len() == operands(c[w].0)
}

/// Some gate of the netlist reads another number of wires than its kind
/// may.
pub open spec fn ill_fitting(c: Netlist) -> bool {
    exists|w: u64| #[trigger] c.contains_key(w) && c[w].0 != GateType::INPUT && !fits(c[w].0, c[w].1@.len())
}

/// Executable form of [`fits`].
pub fn may_read(kind: GateType, n: usize) -> (r: bool)
    ensures
        r == fits(kind, n as nat),
{
    match kind {
        GateType::INPUT => n == 0,
        GateType::CONST_0 | GateType::CONST_1 => n <= 1,
        GateType::NOT | GateType::CONST => n == 1,
        _ => n == 2,
    }
}

/// Whether some gate reads another number of wires than its kind may.
fn has_ill_fit(circuit: &Circuit, order: &Vec<u64>) -> (r: bool)
    requires
        is_topological(circuit@, order@),
    ensures
        r == ill_fitting(circuit@),
{
    broadcast use vstd::std_specs::btree::group_btree_axioms;

    let ghost c = circuit@;
    let mut i: usize = 0;
    while i < order.len()
        invariant
            i <= order.len(),
            c == circuit@,
            forall|j: int|
                0 <= j < i && is_gate(c, #[trigger] order@[j]) ==> fits(
                    c[order@[j]].0,
                    c[order@[j]].1@.len(),
                ),
        decreases order.len() - i,
    {
        match circuit.get(&order[i]) {
            None => {},
            Some(gate) => {
                if gate.0 != GateType::INPUT && !may_read(gate.0, gate.1.len()) {
                    assert(c.contains_key(order@[i as int]));
                    return true;
                }
            },
        }
        i += 1;
    }
    proof {
        if ill_fitting(c) {
            let w = choose|w: u64|
                #[trigger] c.contains_key(w) && c[w].0 != GateType::INPUT && !fits(
                    c[w].0,
                    c[w].1@.len(),
                );
            assert(mentions(c, w));
            assert(order@.contains(w));
            let j = choose|j: int| 0 <= j < order@.len() && order@[j] == w;
            assert(is_gate(c, order@[j]));
        }
    }
    false
}

/// Whether a gate of this kind reads its inputs when it stands in an
/// expression.
pub open spec fn feeds(kind: GateType) -> bool {
    kind != GateType::INPUT && kind != GateType::CONST_0 && kind != GateType::CONST_1
}

/// The wires that go into the expression of `w`: those that its gate reads, if
/// a gate of its kind reads its inputs in an expression.
pub open spec fn feeds_into(c: Netlist, w: u64, v: u64) -> bool {
    reads(c, w, v) && feeds(c[w].0)
}

/// The wire lies in the cone of `root`: a chain of gates leads from `root`
/// down to it, each reading the next.
pub open spec fn in_cone(c: Netlist, root: u64, w: u64) -> bool {
    exists|path: Seq<u64>|
        path.len() >= 1 && path[0] == root && #[trigger] path.last() == w && forall|i: int|
            0 <= i < path.len() - 1 ==> feeds_into(c, #[trigger] path[i], path[i + 1])
}

/// The root lies in its cone.
proof fn lemma_cone_root(c: Netlist, root: u64)
    ensures
        in_cone(c, root, root),
{
    let path = seq![root];
    assert(path.last() == root);
}

/// What goes into a wire of the cone lies in the cone.
proof fn lemma_cone_step(c: Netlist, root: u64, w: u64, v: u64)
    requires
        in_cone(c, root, w),
        feeds_into(c, w, v),
    ensures
        in_cone(c, root, v),
{
    let path = choose|path: Seq<u64>|
        path.len() >= 1 && path[0] == root && #[trigger] path.last() == w && forall|i: int|
            0 <= i < path.len() - 1 ==> feeds_into(c, #[trigger] path[i], path[i + 1]);
    let longer = path.push(v);
    assert(longer.last() == v);
    assert forall|i: int| 0 <= i < longer.len() - 1 implies feeds_into(
        c,
        #[trigger] longer[i],
        longer[i + 1],
    ) by {
        if i < path.len() - 1 {
            assert(feeds_into(c, path[i], path[i + 1]));
        }
    }
}

/// Marks the wires that the expression of `output` is made of: the wire
/// itself and, gate by gate, the wires that the marked gates read.
fn traverse_wire(circuit: &Circuit, order: &Vec<u64>, output: u64) -> (needed: HashSet<u64>)
    requires
        is_topological(circuit@, order@),
    ensures
        needed@.contains(output),
        forall|w: u64, v: u64|
            needed@.contains(w) && #[trigger] reads(circuit@, w, v) && feeds(circuit@[w].0)
                ==> needed@.contains(v),
        forall|w: u64| needed@.contains(w) <==> in_cone(circuit@, output, w),
{
    broadcast use vstd::std_specs::btree::group_btree_axioms;
    broadcast use vstd::std_specs::hash::group_hash_axioms;

    let ghost c = circuit@;
    let mut needed: HashSet<u64> = HashSet::new();
    needed.insert(output);
    proof {
        lemma_cone_root(c, output);
    }
    let mut i: usize = order.len();
    while i > 0
        invariant
            i <= order.len(),
            c == circuit@,
            is_topological(c, order@),
            needed@.contains(output),
            forall|w: u64| needed@.contains(w) ==> in_cone(c, output, w),
            forall|j: int, v: u64|
                i <= j < order.len() && needed@.contains(order@[j]) && #[trigger] reads(
                    c,
                    order@[j],
                    v,
                ) && feeds(c[order@[j]].0) ==> needed@.contains(v),
        decreases i,
    {
        i -= 1;
        let w: u64 = order[i];
        if needed.contains(&w) {
            match circuit.get(&w) {
                None => {},
                Some(gate) => {
                    if gate.0 != GateType::INPUT && gate.0 != GateType::CONST_0 && gate.0
                        != GateType::CONST_1 {
                        let mut k: usize = 0;
                        while k < gate.1.len()
                            invariant
                                k <= gate.1.len(),
                                i < order.len(),
                                c == circuit@,
                                is_topological(c, order@),
                                c.contains_key(w),
                                *gate == c[w],
                                w == order@[i as int],
                                needed@.contains(output),
                                needed@.contains(w),
                                feeds(gate.0),
                                forall|x: u64| needed@.contains(x) ==> in_cone(c, output, x),
                                forall|j: int, v: u64|
                                    i < j < order.len() && needed@.contains(order@[j])
                                        && #[trigger] reads(c, order@[j], v) && feeds(
                                        c[order@[j]].0,
                                    ) ==> needed@.contains(v),
                                forall|j: int| 0 <= j < k ==> needed@.contains(#[trigger] gate.1@[j]),
                            decreases gate.1.len() - k,
                        {
                            proof {
                                let v = gate.1@[k as int];
                                assert(reads(c, order@[i as int], v));
                                let before = choose|j: int| 0 <= j < i && order@[j] == v;
                                assert forall|j: int| i < j < order.len() implies order@[j]
                                    != v by {
                                    assert(order@[before] == v);
                                }
                                lemma_cone_step(c, output, w, v);
                            }
                            needed.insert(gate.1[k]);
                            k += 1;
                        }
                        proof {
                            assert forall|v: u64| reads(c, w, v) implies needed@.contains(v) by {
                                let at = choose|at: int|
                                    0 <= at < gate.1@.len() && gate.1@[at] == v;
                                assert(needed@.contains(gate.1@[at]));
                            }
                        }
                    }
                },
            }
        }
    }
    proof {
        assert forall|w: u64, v: u64|
            needed@.contains(w) && #[trigger] reads(c, w, v) && feeds(
                c[w].0,
            ) implies needed@.contains(v) by {
            assert(mentions(c, w));
            assert(order@.contains(w));
            let j = choose|j: int| 0 <= j < order@.len() && order@[j] == w;
            assert(reads(c, order@[j], v));
        }
        assert forall|w: u64| in_cone(c, output, w) implies needed@.contains(w) by {
            let path = choose|path: Seq<u64>|
                path.len() >= 1 && path[0] == output && #[trigger] path.last() == w && forall|i: int|
                    0 <= i < path.len() - 1 ==> feeds_into(c, #[trigger] path[i], path[i + 1]);
            lemma_cone_is_marked(c, needed@, path, path.len() - 1);
        }
    }
    needed
}

/// A set that holds the root and, with every wire, what goes into it holds
/// every wire of a chain from the root.
proof fn lemma_cone_is_marked(c: Netlist, needed: Set<u64>, path: Seq<u64>, at: int)
    requires
        0 <= at < path.len(),
        needed.contains(path[0]),
        forall|i: int| 0 <= i < path.len() - 1 ==> feeds_into(c, #[trigger] path[i], path[i + 1]),
        forall|w: u64, v: u64|
            needed.contains(w) && #[trigger] reads(c, w, v) && feeds(c[w].0) ==> needed.contains(v),
    ensures
        needed.contains(path[at]),
    decreases at,
{
    if at > 0 {
        lemma_cone_is_marked(c, needed, path, at - 1);
        assert(feeds_into(c, path[at - 1], path[at - 1 + 1]));
    }
}

/// The price of input `k` of the driver of `w`; a gate with fewer inputs
/// pays nothing there.
pub open spec fn input_price(c: Netlist, prices: Map<u64, nat>, w: u64, k: int) -> nat {
    if 0 <= k < c[w].1@.len() {
        prices[c[w].1@[k]]
    } else {
        0
    }
}

/// What a gate of the kind costs to garble over inputs that cost `a` and
/// `b`.
pub open spec fn gate_price(kind: GateType, a: nat, b: nat) -> nat {
    match kind {
        GateType::CONST => a,
        GateType::INPUT | GateType::CONST_0 | GateType::CONST_1 => 4,
        GateType::NOT => 2 + a,
        GateType::XOR => 1 + a + b,
        _ => 4 + a + b,
    }
}

/// What the wire `w` costs to garble when the other wires cost what
/// `prices` says: a wire that no gate drives and a constant cost the same,
/// a gate that passes its input on costs what its input costs, and any other
/// gate adds to the prices of the wires it reads, an XOR gate next to
/// nothing, a NOT gate little, every other gate the same as a wire.
pub open spec fn price_at(c: Netlist, prices: Map<u64, nat>, w: u64) -> nat {
    if !is_gate(c, w) {
        4
    } else {
        gate_price(c[w].0, input_price(c, prices, w, 0), input_price(c, prices, w, 1))
    }
}

/// `prices` gives every wire what its cone costs to garble: a wire that is
/// read twice counts twice.
pub open spec fn priced(c: Netlist, prices: Map<u64, nat>) -> bool {
    forall|w: u64| prices[w] == #[trigger] price_at(c, prices, w)
}

/// The expression costs what the cone of the wire costs.
#[verifier::opaque]
pub open spec fn costs_as(c: Netlist, w: u64, e: Expr) -> bool {
    forall|prices: Map<u64, nat>| #[trigger] priced(c, prices) ==> prices[w] == e.garble_cost()
}

/// A wire with a place costs what the node at that place costs.
spec fn priced_places(c: Netlist, nodes: Seq<Node>, places: Map<u64, usize>) -> bool {
    forall|w: u64, prices: Map<u64, nat>|
        places.contains_key(w) && #[trigger] priced(c, prices) ==> prices[w] == #[trigger] node_cost(
            nodes,
            places[w] as int,
        )
}

/// What the nodes built so far have to do with the wires: a wire with a
/// place has the bit and the leaves of the node at that place.
spec fn placed(c: Netlist, nodes: Seq<Node>, places: Map<u64, usize>, needed: Set<u64>) -> bool {
    &&& all_ok(nodes)
    &&& forall|w: u64, l: u64|
        places.contains_key(w) && #[trigger] is_leaf_of(nodes, places[w] as int, l)
            ==> needed.contains(l)
    &&& forall|w: u64| #[trigger] places.contains_key(w) ==> places[w] < nodes.len()
    &&& forall|w: u64, vals: Map<u64, bool>|
        places.contains_key(w) && satisfies(c, vals) ==> #[trigger] node_value(
            nodes,
            places[w] as int,
            vals,
        ) == vals[w]
    &&& forall|w: u64, l: u64|
        places.contains_key(w) && #[trigger] is_leaf_of(nodes, places[w] as int, l) ==> !is_gate(
            c,
            l,
        )
}

/// The nodes and the places after the wire `w` of a cone is lifted: a wire
/// that no gate drives becomes a leaf, a constant a node that reads nothing,
/// and any other gate a node over the places of the wires it reads; a
/// `CONST` gate gets no node of its own but the place of the wire it passes
/// on.
pub open spec fn lift_step(c: Netlist, w: u64, nodes: Seq<Node>, places: Map<u64, usize>) -> (
    Seq<Node>,
    Map<u64, usize>,
) {
    let here = nodes.len() as usize;
    if !is_gate(c, w) {
        (nodes.push(Node::Wire(w)), places.insert(w, here))
    } else {
        let kind = c[w].0;
        let ins = c[w].1@;
        if kind == GateType::CONST_0 || kind == GateType::CONST_1 {
            (nodes.push(Node::Gate(kind, 0, 0)), places.insert(w, here))
        } else if kind == GateType::CONST {
            (nodes, places.insert(w, places[ins[0]]))
        } else if kind == GateType::NOT {
            (nodes.push(Node::Gate(kind, places[ins[0]], places[ins[0]])), places.insert(w, here))
        } else {
            (nodes.push(Node::Gate(kind, places[ins[0]], places[ins[1]])), places.insert(w, here))
        }
    }
}

/// The nodes, and the place of every wire, after those of the first `upto`
/// wires of `order` that lie in the cone of `root` are lifted.
pub open spec fn lift_walk(c: Netlist, order: Seq<u64>, root: u64, upto: nat) -> (
    Seq<Node>,
    Map<u64, usize>,
)
    decreases upto,
{
    if upto == 0 {
        (Seq::empty(), Map::empty())
    } else {
        let before = lift_walk(c, order, root, (upto - 1) as nat);
        if in_cone(c, root, order[upto - 1]) {
            lift_step(c, order[upto - 1], before.0, before.1)
        } else {
            before
        }
    }
}

/// The nodes of the expression of the cone of `root`: the wires of the cone
/// lifted in the order of the netlist, up to the node of the root. A root
/// that the netlist does not mention is a leaf.
pub open spec fn cone_of(circuit: &Circuit, root: u64) -> Seq<Node> {
    let order = topo_order(circuit);
    let all = lift_walk(circuit@, order, root, order.len());
    if all.1.contains_key(root) {
        all.0.take(all.1[root] + 1)
    } else {
        all.0.push(Node::Wire(root))
    }
}

/// Lifts the cone of `output` to an expression. A wire that no gate drives
/// becomes a leaf; a gate becomes a node over the nodes of the wires it
/// reads; a gate that passes its input on is the node of its input. A wire
/// that is read more than once has one node, and no wire outside the cone
/// has any.
///
/// Fails with `CycleDetected` exactly when the netlist has a cycle, and
/// otherwise with `ArityMismatch` exactly when some gate of the netlist
/// reads another number of wires than its kind may.
pub fn build_expr(circuit: &Circuit, output: u64) -> (r: Result<Expr, ProtocolError>)
    ensures
        keys_increase(circuit),
        match r {
            Ok(e) => {
                &&& acyclic(circuit@)
                &&& !ill_fitting(circuit@)
                &&& e.nodes@ == cone_of(circuit, output)
                &&& e.wf()
                &&& lifted(circuit@, output, e)
                &&& costs_as(circuit@, output, e)
                &&& forall|l: u64| #[trigger] e.has_leaf(l) ==> in_cone(circuit@, output, l)
            },
            Err(e) => match e {
                ProtocolError::CycleDetected => !acyclic(circuit@),
                ProtocolError::ArityMismatch => acyclic(circuit@) && ill_fitting(circuit@),
                _ => false,
            },
        },
{
    broadcast use vstd::std_specs::btree::group_btree_axioms;
    broadcast use vstd::std_specs::hash::group_hash_axioms;

    let order = match topo_sort_wires(circuit) {
        Ok(order) => order,
        Err(e) => {
            return Err(e);
        },
    };
    if has_ill_fit(circuit, &order) {
        return Err(ProtocolError::ArityMismatch);
    }
    let needed = traverse_wire(circuit, &order, output);
    let ghost c = circuit@;
    let mut expr = Expr::empty();
    let mut places: BTreeMap<u64, usize> = BTreeMap::new();
    let mut i: usize = 0;
    while i < order.len()
        invariant
            i <= order.len(),
            c == circuit@,
            is_topological(c, order@),
            !ill_fitting(c),
            needed@.contains(output),
            forall|w: u64, v: u64|
                needed@.contains(w) && #[trigger] reads(c, w, v) && feeds(c[w].0)
                    ==> needed@.contains(v),
            placed(c, expr.nodes@, places@, needed@),
            priced_places(c, expr.nodes@, places@),
            (expr.nodes@, places@) == lift_walk(c, order@, output, i as nat),
            forall|w: u64| needed@.contains(w) <==> in_cone(c, output, w),
            forall|j: int|
                0 <= j < i && needed@.contains(#[trigger] order@[j]) ==> places@.contains_key(
                    order@[j],
                ),
        decreases order.len() - i,
    {
        let w: u64 = order[i];
        if needed.contains(&w) {
            let ghost nodes0 = expr.nodes@;
            let ghost places0 = places@;
            let gate = circuit.get(&w);
            let leaf = match gate {
                None => true,
                Some(g) => g.0 == GateType::INPUT,
            };
            if leaf {
                let n = expr.wire(w);
                places.insert(w, n);
                proof {
                    assert(!is_gate(c, w));
                    lemma_cost_of_last(nodes0, Node::Wire(w));
                    assert forall|prices: Map<u64, nat>| #[trigger] priced(c, prices) implies prices[w]
                        == node_cost(expr.nodes@, n as int) by {
                        assert(prices[w] == price_at(c, prices, w));
                    }
                }
            } else {
                let g = gate.unwrap();
                let kind = g.0;
                proof {
                    assert(c.contains_key(w) && c[w].0 != GateType::INPUT);
                    assert(fits(kind, g.1@.len()));
                    if g.1@.len() >= 1 && feeds(kind) {
                        lemma_input_is_placed(c, order@, needed@, places0, i as int, 0);
                    }
                    if g.1@.len() >= 2 && feeds(kind) {
                        lemma_input_is_placed(c, order@, needed@, places0, i as int, 1);
                    }
                }
                if kind == GateType::CONST_0 || kind == GateType::CONST_1 {
                    let n = expr.gate(kind, 0, 0);
                    places.insert(w, n);
                } else if kind == GateType::CONST {
                    let a = *places.get(&g.1[0]).unwrap();
                    places.insert(w, a);
                } else if kind == GateType::NOT {
                    let a = *places.get(&g.1[0]).unwrap();
                    let n = expr.gate(kind, a, a);
                    places.insert(w, n);
                } else {
                    let a = *places.get(&g.1[0]).unwrap();
                    let b = *places.get(&g.1[1]).unwrap();
                    let n = expr.gate(kind, a, b);
                    places.insert(w, n);
                }
                proof {
                    if kind != GateType::CONST {
                        lemma_cost_of_last(nodes0, expr.nodes@.last());
                        assert(expr.nodes@ == nodes0.push(expr.nodes@.last()));
                    }
                    assert forall|prices: Map<u64, nat>| #[trigger] priced(c, prices) implies prices[w]
                        == node_cost(expr.nodes@, places@[w] as int) by {
                        assert(prices[w] == price_at(c, prices, w));
                        if g.1@.len() >= 1 && feeds(kind) {
                            assert(prices[g.1@[0]] == node_cost(nodes0, places0[g.1@[0]] as int));
                        }
                        if g.1@.len() >= 2 && feeds(kind) {
                            assert(prices[g.1@[1]] == node_cost(nodes0, places0[g.1@[1]] as int));
                        }
                    }
                    assert forall|vals: Map<u64, bool>| satisfies(c, vals) implies node_value(
                        expr.nodes@,
                        places@[w] as int,
                        vals,
                    ) == vals[w] by {
                        assert(c.contains_key(w) && c[w].0 != GateType::INPUT);
                        if g.1@.len() >= 1 && feeds(kind) {
                            assert(node_value(nodes0, places0[g.1@[0]] as int, vals)
                                == vals[g.1@[0]]);
                        }
                        if g.1@.len() >= 2 && feeds(kind) {
                            assert(node_value(nodes0, places0[g.1@[1]] as int, vals)
                                == vals[g.1@[1]]);
                        }
                    }
                }
            }
            proof {
                assert forall|v: u64, prices: Map<u64, nat>|
                    places@.contains_key(v) && #[trigger] priced(c, prices) implies prices[v]
                    == #[trigger] node_cost(expr.nodes@, places@[v] as int) by {
                    if v != w {
                        assert(places0.contains_key(v));
                        assert(prices[v] == node_cost(nodes0, places0[v] as int));
                        lemma_cost_of_prefix(nodes0, expr.nodes@, places0[v] as int);
                    }
                }
                assert forall|v: u64, vals: Map<u64, bool>|
                    places@.contains_key(v) && satisfies(c, vals) implies #[trigger] node_value(
                    expr.nodes@,
                    places@[v] as int,
                    vals,
                ) == vals[v] by {
                    if v != w {
                        assert(places0.contains_key(v));
                        assert(node_value(nodes0, places0[v] as int, vals) == vals[v]);
                    }
                }
                assert forall|v: u64, l: u64|
                    places@.contains_key(v) && #[trigger] is_leaf_of(
                        expr.nodes@,
                        places@[v] as int,
                        l,
                    ) implies !is_gate(c, l) && needed@.contains(l) by {
                    if v != w {
                        assert(places0.contains_key(v));
                        assert(is_leaf_of(nodes0, places0[v] as int, l));
                    }
                }
            }
        }
        i += 1;
    }
    let root: usize = match places.get(&output) {
        Some(n) => *n,
        None => {
            proof {
                if mentions(c, output) {
                    assert(order@.contains(output));
                    let j = choose|j: int| 0 <= j < order@.len() && order@[j] == output;
                    assert(places@.contains_key(order@[j]));
                }
                assert(!is_gate(c, output));
            }
            let ghost nodes0 = expr.nodes@;
            let ghost places0 = places@;
            let n = expr.wire(output);
            places.insert(output, n);
            proof {
                lemma_cost_of_last(nodes0, Node::Wire(output));
                assert forall|v: u64, prices: Map<u64, nat>|
                    places@.contains_key(v) && #[trigger] priced(c, prices) implies prices[v]
                    == #[trigger] node_cost(expr.nodes@, places@[v] as int) by {
                    if v != output {
                        assert(places0.contains_key(v));
                        assert(prices[v] == node_cost(nodes0, places0[v] as int));
                    } else {
                        assert(prices[v] == price_at(c, prices, v));
                    }
                }
            }
            n
        },
    };
    let ghost all = expr.nodes@;
    assert(places@.contains_key(output) && root < expr.nodes.len());
    expr.nodes.truncate(root + 1);
    proof {
        let cut = expr.nodes@;
        assert(cut =~= all.subrange(0, root + 1));
        assert(cut =~= cone_of(circuit, output));
        assert(costs_as(c, output, expr)) by {
            reveal(costs_as);
            assert forall|prices: Map<u64, nat>| #[trigger] priced(c, prices) implies prices[output]
                == expr.garble_cost() by {
                assert(prices[output] == node_cost(all, places@[output] as int));
                lemma_cost_of_prefix(cut, all, root as int);
            }
        }
        assert forall|j: int| 0 <= j < cut.len() implies node_ok(cut, j) by {
            assert(node_ok(all, j));
        }
        assert forall|vals: Map<u64, bool>| satisfies(c, vals) implies #[trigger] expr.value(vals)
            == vals[output] by {
            crate::optimizer::lemma_value_of_prefix(cut, all, root as int, vals);
        }
        assert forall|l: u64| #[trigger] expr.has_leaf(l) implies !is_gate(c, l) && in_cone(
            c,
            output,
            l,
        ) by {
            crate::optimizer::lemma_leaves_of_prefix(cut, all, root as int, l);
            assert(needed@.contains(l));
        }
    }
    Ok(expr)
}

/// The wire on input `k` of the wire at place `at` has a place.
proof fn lemma_input_is_placed(
    c: Netlist,
    order: Seq<u64>,
    needed: Set<u64>,
    places: Map<u64, usize>,
    at: int,
    k: int,
)
    requires
        is_topological(c, order),
        0 <= at < order.len(),
        needed.contains(order[at]),
        c.contains_key(order[at]),
        feeds(c[order[at]].0),
        0 <= k < c[order[at]].1@.len(),
        forall|w: u64, v: u64|
            needed.contains(w) && #[trigger] reads(c, w, v) && feeds(c[w].0) ==> needed.contains(v),
        forall|j: int|
            0 <= j < at && needed.contains(#[trigger] order[j]) ==> places.contains_key(order[j]),
    ensures
        places.contains_key(c[order[at]].1@[k]),
{
    let v = c[order[at]].1@[k];
    assert(reads(c, order[at], v));
    let j = choose|j: int| 0 <= j < at && order[j] == v;
    assert(needed.contains(order[j]));
}

/// Every wire that a gate reads has an entry.
pub open spec fn closed(c: Netlist) -> bool {
    forall|w: u64, v: u64| #[trigger] reads(c, w, v) ==> c.contains_key(v)
}

/// The second netlist has every entry of the first, and every gate of the
/// first as it was.
pub open spec fn extends(c: Netlist, d: Netlist) -> bool {
    forall|w: u64| #[trigger]
        c.contains_key(w) ==> d.contains_key(w) && (c[w].0 != GateType::INPUT ==> d[w] == c[w])
}

/// Under every assignment that agrees with the gates of the netlist, the
/// wire has the bit of the expression.
pub open spec fn computes(c: Netlist, w: u64, e: Expr) -> bool {
    forall|vals: Map<u64, bool>| satisfies(c, vals) ==> vals[w] == #[trigger] e.value(vals)
}

/// An assignment that agrees with the gates of a netlist agrees with the
/// gates of every netlist that it extends.
pub proof fn lemma_extends_satisfies(c: Netlist, d: Netlist, vals: Map<u64, bool>)
    requires
        extends(c, d),
        satisfies(d, vals),
    ensures
        satisfies(c, vals),
{
    assert forall|w: u64|
        #[trigger] c.contains_key(w) && c[w].0 != GateType::INPUT implies vals[w]
        == c[w].0.output(
        crate::correctness::input_bit(c, vals, w, 0),
        crate::correctness::input_bit(c, vals, w, 1),
    ) by {
        assert(d.contains_key(w) && d[w].0 != GateType::INPUT);
    }
}

/// A new wire whose gate reads only wires that are there keeps a closed,
/// acyclic netlist closed and acyclic.
proof fn lemma_new_wire(c: Netlist, w: u64, gate: (GateType, Vec<u64>))
    requires
        acyclic(c),
        closed(c),
        !c.contains_key(w),
        forall|k: int| 0 <= k < gate.1@.len() ==> c.contains_key(#[trigger] gate.1@[k]),
    ensures
        acyclic(c.insert(w, gate)),
        closed(c.insert(w, gate)),
        extends(c, c.insert(w, gate)),
{
    let d = c.insert(w, gate);
    let order = choose|order: Seq<u64>| is_topological(c, order);
    let longer = order.push(w);
    assert(!mentions(c, w)) by {
        if mentions(c, w) {
            let g = choose|g: u64| reads(c, g, w);
            assert(reads(c, g, w));
        }
    }
    assert(!order.contains(w));
    assert forall|x: u64, v: u64| #[trigger] reads(d, x, v) implies d.contains_key(v) by {
        if x == w {
            let k = choose|k: int| 0 <= k < gate.1@.len() && gate.1@[k] == v;
            assert(c.contains_key(gate.1@[k]));
        } else {
            assert(reads(c, x, v));
        }
    }
    assert forall|x: u64| mentions(d, x) <==> #[trigger] longer.contains(x) by {
        if mentions(d, x) {
            if x == w {
                assert(longer[order.len() as int] == x);
            } else {
                if !d.contains_key(x) {
                    let g = choose|g: u64| reads(d, g, x);
                    assert(reads(d, g, x));
                }
                assert(c.contains_key(x));
                assert(mentions(c, x));
                assert(order.contains(x));
                let at = choose|at: int| 0 <= at < order.len() && order[at] == x;
                assert(longer[at] == x);
            }
        }
        if longer.contains(x) {
            let at = choose|at: int| 0 <= at < longer.len() && longer[at] == x;
            if at < order.len() {
                assert(order.contains(x));
                assert(mentions(c, x));
                if !c.contains_key(x) {
                    let g = choose|g: u64| reads(c, g, x);
                    assert(reads(c, g, x));
                }
                assert(d.contains_key(x));
            } else {
                assert(d.contains_key(x));
            }
        }
    }
    assert forall|i: int, v: u64| 0 <= i < longer.len() && #[trigger] reads(
        d,
        longer[i],
        v,
    ) implies exists|j: int| 0 <= j < i && longer[j] == v by {
        if i < order.len() {
            assert(order.contains(order[i]));
            assert(order[i] != w);
            assert(reads(c, order[i], v));
            let j = choose|j: int| 0 <= j < i && order[j] == v;
            assert(longer[j] == v);
        } else {
            let k = choose|k: int| 0 <= k < gate.1@.len() && gate.1@[k] == v;
            assert(c.contains_key(gate.1@[k]));
            assert(mentions(c, v));
            assert(order.contains(v));
            let j = choose|j: int| 0 <= j < order.len() && order[j] == v;
            assert(longer[j] == v);
        }
    }
    assert(is_topological(d, longer));
}

/// A netlist with the inputs of every gate as a sequence.
pub type Gates = Map<u64, (GateType, Seq<u64>)>;

/// The gates of a netlist, each with the wires it reads.
pub open spec fn plain(c: Netlist) -> Gates {
    Map::new(|w: u64| c.contains_key(w), |w: u64| (c[w].0, c[w].1@))
}

/// How far a lowering has come: the gates made so far, the wire that was
/// made for each shared gate, and the number of the next new wire.
pub struct Lowered {
    pub gates: Gates,
    pub shared: Map<(u8, u64, u64), u64>,
    pub counter: u64,
}

/// The state that a netlist, the shared gates and the counter stand for.
#[verifier::opaque]
pub open spec fn state_of(c: Netlist, shared: Map<(u8, u64, u64), u64>, counter: u64) -> Lowered {
    Lowered { gates: plain(c), shared, counter }
}

/// Puts a gate into the state and gives its wire. A gate with a wire given
/// drives that wire and is not shared. Without one, the wire of a gate of
/// the same kind over the same wires is used again if there is one; else
/// this gate gets the next new wire and is shared from then on.
pub open spec fn with_gate(s: Lowered, kind: GateType, inputs: Seq<u64>, target: Option<u64>) -> (
    Lowered,
    u64,
) {
    match target {
        Some(o) => (
            Lowered { gates: s.gates.insert(o, (kind, inputs)), shared: s.shared, counter: s.counter },
            o,
        ),
        None => {
            let key = gate_key(kind, inputs);
            if s.shared.contains_key(key) {
                (s, s.shared[key])
            } else {
                (
                    Lowered {
                        gates: s.gates.insert(s.counter, (kind, inputs)),
                        shared: s.shared.insert(key, s.counter),
                        counter: (s.counter + 1) as u64,
                    },
                    s.counter,
                )
            }
        },
    }
}

/// The wires that a node of the kind reads, given the wire of every node
/// before it.
pub open spec fn node_inputs(kind: GateType, a: usize, b: usize, wires: Seq<u64>) -> Seq<u64> {
    if operands(kind) >= 2 {
        seq![wires[a as int], wires[b as int]]
    } else if operands(kind) >= 1 {
        seq![wires[a as int]]
    } else {
        Seq::empty()
    }
}

/// The state after the first `upto` nodes of an expression are lowered, and
/// the wire of each of these nodes. A leaf becomes an input wire unless its
/// wire is there already; every other node becomes a gate over the wires of
/// the nodes it reads. The last node drives `out`: a gate takes that wire,
/// and a leaf of another wire is passed on to it by a `CONST` gate.
pub open spec fn lowered_nodes(nodes: Seq<Node>, s: Lowered, out: u64, upto: nat) -> (
    Lowered,
    Seq<u64>,
)
    decreases upto,
{
    if upto == 0 {
        (s, Seq::empty())
    } else {
        let before = lowered_nodes(nodes, s, out, (upto - 1) as nat);
        let t = before.0;
        let wires = before.1;
        let last = upto == nodes.len();
        match nodes[upto - 1] {
            Node::Wire(w) => {
                let leafed = if t.gates.contains_key(w) {
                    t
                } else {
                    Lowered {
                        gates: t.gates.insert(w, (GateType::INPUT, Seq::empty())),
                        shared: t.shared,
                        counter: t.counter,
                    }
                };
                if last && w != out {
                    let placed = with_gate(leafed, GateType::CONST, seq![w], Some(out));
                    (placed.0, wires.push(placed.1))
                } else {
                    (leafed, wires.push(w))
                }
            },
            Node::Gate(kind, a, b) => {
                let placed = with_gate(
                    t,
                    kind,
                    node_inputs(kind, a, b, wires),
                    if last {
                        Some(out)
                    } else {
                        None
                    },
                );
                (placed.0, wires.push(placed.1))
            },
        }
    }
}

/// The state after an expression is lowered and its root drives `out`.
pub open spec fn lowered_expr(e: Expr, s: Lowered, out: u64) -> Lowered {
    lowered_nodes(e.nodes@, s, out, e.nodes@.len()).0
}

/// The number that stands for a kind in the key of a shared gate.
pub open spec fn kind_code(kind: GateType) -> u8 {
    match kind {
        GateType::AND => 0,
        GateType::NOT => 1,
        GateType::OR => 2,
        GateType::XOR => 3,
        GateType::ORNOT => 4,
        GateType::NOR => 5,
        GateType::NAND => 6,
        GateType::ANDNOT => 7,
        GateType::XNOR => 8,
        GateType::CONST_1 => 9,
        GateType::CONST_0 => 10,
        GateType::CONST => 11,
        GateType::INPUT => 12,
    }
}

/// Executable form of [`kind_code`].
fn code_of(kind: GateType) -> (r: u8)
    ensures
        r == kind_code(kind),
{
    match kind {
        GateType::AND => 0,
        GateType::NOT => 1,
        GateType::OR => 2,
        GateType::XOR => 3,
        GateType::ORNOT => 4,
        GateType::NOR => 5,
        GateType::NAND => 6,
        GateType::ANDNOT => 7,
        GateType::XNOR => 8,
        GateType::CONST_1 => 9,
        GateType::CONST_0 => 10,
        GateType::CONST => 11,
        GateType::INPUT => 12,
    }
}

/// The key under which a gate is shared: its kind and the wires it reads.
pub open spec fn gate_key(kind: GateType, inputs: Seq<u64>) -> (u8, u64, u64) {
    (
        kind_code(kind),
        if inputs.len() >= 1 {
            inputs[0]
        } else {
            0
        },
        if inputs.len() >= 2 {
            inputs[1]
        } else {
            0
        },
    )
}

/// The state of a lowering: the netlist is closed and acyclic, its wires
/// lie below the counter, and every shared gate is a wire of the netlist
/// that was made for its key.
#[verifier::opaque]
pub closed spec fn lowering(
    c: Netlist,
    shared: Map<(u8, u64, u64), u64>,
    counter: u64,
    base: u64,
) -> bool {
    &&& acyclic(c)
    &&& closed(c)
    &&& well_sized(c)
    &&& base <= counter
    &&& forall|w: u64| #[trigger] c.contains_key(w) ==> w < counter
    &&& forall|kind: GateType, inputs: Seq<u64>| #[trigger]
        shared.contains_key(gate_key(kind, inputs)) && inputs.len() == operands(kind) ==> {
            let f = shared[gate_key(kind, inputs)];
            &&& base <= f
            &&& c.contains_key(f)
            &&& c[f].0 == kind
            &&& c[f].1@ == inputs
        }
    &&& forall|w: u64| #[trigger] c.contains_key(w) && base <= w ==> is_shared(c, shared, w)
}

/// The wire is the one that gates of its kind over its wires share.
pub open spec fn is_shared(c: Netlist, shared: Map<(u8, u64, u64), u64>, w: u64) -> bool {
    &&& c[w].1@.len() == operands(c[w].0)
    &&& shared.contains_key(gate_key(c[w].0, c[w].1@))
    &&& shared[gate_key(c[w].0, c[w].1@)] == w
}

/// Puts a gate into the netlist and returns its wire. With a wire given,
/// the new gate drives that wire. Without one, a gate of the same kind over
/// the same wires is used again if there is one; else the new gate gets a
/// new wire.
fn add_or_reuse_gate(
    circuit: &mut Circuit,
    gate_type: GateType,
    inputs: &Vec<u64>,
    existing_gates: &mut BTreeMap<(u8, u64, u64), u64>,
    wire_counter: &mut u64,
    output_wire: Option<u64>,
    Ghost(base): Ghost<u64>,
) -> (r: u64)
    requires
        lowering(old(circuit)@, old(existing_gates)@, *old(wire_counter), base),
        gate_type != GateType::INPUT,
        inputs@.len() == operands(gate_type),
        forall|k: int| 0 <= k < inputs@.len() ==> old(circuit)@.contains_key(#[trigger] inputs@[k]),
        *old(wire_counter) < u64::MAX,
        output_wire matches Some(o) ==> o < base && !old(circuit)@.contains_key(o),
        output_wire is None ==> gate_type != GateType::CONST,
    ensures
        lowering(final(circuit)@, final(existing_gates)@, *final(wire_counter), base),
        (state_of(final(circuit)@, final(existing_gates)@, *final(wire_counter)), r) == with_gate(
            state_of(old(circuit)@, old(existing_gates)@, *old(wire_counter)),
            gate_type,
            inputs@,
            output_wire,
        ),
        extends(old(circuit)@, final(circuit)@),
        *old(wire_counter) <= *final(wire_counter) <= *old(wire_counter) + 1,
        final(circuit)@.contains_key(r),
        final(circuit)@[r].0 == gate_type,
        final(circuit)@[r].1@ == inputs@,
        output_wire matches Some(o) ==> r == o && final(circuit)@ == old(circuit)@.insert(
            o,
            final(circuit)@[o],
        ),
        output_wire is None ==> r >= base && (final(circuit)@ == old(circuit)@ || final(circuit)@
            == old(circuit)@.insert(r, final(circuit)@[r]) && r == *old(wire_counter)),
{
    broadcast use vstd::std_specs::btree::group_btree_axioms;

    let ghost c = circuit@;
    let ghost shared = existing_gates@;
    proof {
        reveal(lowering);
        reveal(state_of);
    }
    let copy = copy_wires(inputs);
    if let Some(o) = output_wire {
        proof {
            lemma_new_wire(c, o, (gate_type, copy));
        }
        circuit.insert(o, (gate_type, copy));
        assert(plain(circuit@) =~= plain(c).insert(o, (gate_type, inputs@)));
        return o;
    }
    let a: u64 = if inputs.len() >= 1 {
        inputs[0]
    } else {
        0
    };
    let b: u64 = if inputs.len() >= 2 {
        inputs[1]
    } else {
        0
    };
    let gate_key = (code_of(gate_type), a, b);
    assert(gate_key == self::gate_key(gate_type, inputs@));
    if let Some(found) = existing_gates.get(&gate_key) {
        return *found;
    }
    let fresh: u64 = *wire_counter;
    *wire_counter = fresh + 1;
    proof {
        lemma_new_wire(c, fresh, (gate_type, copy));
    }
    circuit.insert(fresh, (gate_type, copy));
    existing_gates.insert(gate_key, fresh);
    assert(plain(circuit@) =~= plain(c).insert(fresh, (gate_type, inputs@)));
    proof {
        assert forall|kind: GateType, ins: Seq<u64>| #[trigger]
            existing_gates@.contains_key(self::gate_key(kind, ins)) && ins.len() == operands(
                kind,
            ) implies {
            let f = existing_gates@[self::gate_key(kind, ins)];
            &&& base <= f
            &&& circuit@.contains_key(f)
            &&& circuit@[f].0 == kind
            &&& circuit@[f].1@ == ins
        } by {
            if self::gate_key(kind, ins) == gate_key {
                assert(kind == gate_type);
                assert(ins =~= inputs@);
            } else {
                assert(shared.contains_key(self::gate_key(kind, ins)));
            }
        }
        assert forall|w: u64| #[trigger] circuit@.contains_key(w) && base <= w implies is_shared(
            circuit@,
            existing_gates@,
            w,
        ) by {
            if w != fresh {
                assert(c.contains_key(w));
                assert(is_shared(c, shared, w));
            }
        }
    }
    fresh
}

/// The expression gives the wire a gate of its own: it is more than the
/// wire itself.
pub open spec fn defines(e: Expr, w: u64) -> bool {
    e.nodes@.last() != Node::Wire(w)
}

/// The wire occurs as a leaf among the nodes.
pub open spec fn names_wire(nodes: Seq<Node>, w: u64) -> bool {
    exists|n: int| 0 <= n < nodes.len() && #[trigger] nodes[n] == Node::Wire(w)
}

/// Every entry of the first netlist stands unchanged in the second.
pub open spec fn keeps(c: Netlist, d: Netlist) -> bool {
    forall|w: u64| #[trigger] c.contains_key(w) ==> d.contains_key(w) && d[w] == c[w]
}

/// The prices of a netlist price every closed part of it: what the wires
/// of the part cost in the whole, they cost in the part.
proof fn lemma_prices_of_part(c: Netlist, d: Netlist, prices: Map<u64, nat>) -> (part: Map<
    u64,
    nat,
>)
    requires
        keeps(c, d),
        closed(c),
        priced(d, prices),
    ensures
        priced(c, part),
        forall|w: u64| c.contains_key(w) ==> part[w] == prices[w],
{
    let part = Map::new(
        |w: u64| true,
        |w: u64|
            if c.contains_key(w) {
                prices[w]
            } else {
                4nat
            },
    );
    assert forall|w: u64| part[w] == #[trigger] price_at(c, part, w) by {
        assert(prices[w] == price_at(d, prices, w));
        if c.contains_key(w) {
            assert(d.contains_key(w) && d[w] == c[w]);
            assert forall|k: int| 0 <= k < c[w].1@.len() implies input_price(c, part, w, k)
                == input_price(d, prices, w, k) by {
                assert(reads(c, w, c[w].1@[k]));
            }
            assert(input_price(c, part, w, 0) == input_price(d, prices, w, 0));
            assert(input_price(c, part, w, 1) == input_price(d, prices, w, 1));
        }
    }
    part
}

/// The wire of every node lowered so far costs what the node costs.
spec fn cost_stacked(c: Netlist, nodes: Seq<Node>, stack: Seq<u64>) -> bool {
    forall|j: int, prices: Map<u64, nat>|
        0 <= j < stack.len() && #[trigger] priced(c, prices) ==> prices[stack[j]]
            == #[trigger] node_cost(nodes, j)
}

/// A netlist that keeps the entries of another keeps what the wires of the
/// nodes lowered so far cost.
proof fn lemma_cost_stack_carries(c: Netlist, d: Netlist, nodes: Seq<Node>, stack: Seq<u64>)
    requires
        keeps(c, d),
        closed(c),
        forall|j: int| 0 <= j < stack.len() ==> c.contains_key(#[trigger] stack[j]),
        cost_stacked(c, nodes, stack),
    ensures
        cost_stacked(d, nodes, stack),
{
    assert forall|j: int, prices: Map<u64, nat>|
        0 <= j < stack.len() && #[trigger] priced(d, prices) implies prices[stack[j]]
        == #[trigger] node_cost(nodes, j) by {
        let part = lemma_prices_of_part(c, d, prices);
        assert(c.contains_key(stack[j]));
        assert(part[stack[j]] == node_cost(nodes, j));
    }
}

/// A netlist that keeps the entries of another keeps what its wires cost.
proof fn lemma_cost_carries(c: Netlist, d: Netlist, w: u64, e: Expr)
    requires
        keeps(c, d),
        closed(c),
        c.contains_key(w),
        costs_as(c, w, e),
    ensures
        costs_as(d, w, e),
{
    reveal(costs_as);
    assert forall|prices: Map<u64, nat>| #[trigger] priced(d, prices) implies prices[w]
        == e.garble_cost() by {
        let part = lemma_prices_of_part(c, d, prices);
        assert(priced(c, part));
    }
}

/// What the nodes lowered so far have to do with the netlist: the wire of
/// every node has the bit of the node under every assignment that agrees
/// with the gates.
spec fn stacked(c: Netlist, nodes: Seq<Node>, stack: Seq<u64>) -> bool {
    &&& forall|j: int| 0 <= j < stack.len() ==> c.contains_key(#[trigger] stack[j])
    &&& forall|j: int, vals: Map<u64, bool>|
        0 <= j < stack.len() && satisfies(c, vals) ==> vals[stack[j]] == #[trigger] node_value(
            nodes,
            j,
            vals,
        )
}

/// Lowers one expression into the netlist and lets its root drive
/// `output_name`. Leaves become input wires, every other node a gate; a gate
/// of the same kind over the same wires as an earlier one, of this or of
/// another expression, shares its wire. New wires are numbered from
/// `wire_counter` up. An expression that is a single wire other than the
/// output becomes a gate that passes that wire on.
fn build_circuit(
    expr: &Expr,
    global_circuit: &mut Circuit,
    existing_gates: &mut BTreeMap<(u8, u64, u64), u64>,
    wire_counter: &mut u64,
    output_name: u64,
    Ghost(base): Ghost<u64>,
)
    requires
        expr.wf(),
        lowering(old(global_circuit)@, old(existing_gates)@, *old(wire_counter), base),
        *old(wire_counter) + expr.nodes@.len() <= u64::MAX,
        output_name < base,
        forall|l: u64| #[trigger]
            names_wire(expr.nodes@, l) ==> l < base && (old(global_circuit)@.contains_key(l)
                ==> old(global_circuit)@[l].0 == GateType::INPUT),
        defines(*expr, output_name) ==> !old(global_circuit)@.contains_key(output_name)
            && !names_wire(expr.nodes@, output_name),
    ensures
        lowering(final(global_circuit)@, final(existing_gates)@, *final(wire_counter), base),
        state_of(final(global_circuit)@, final(existing_gates)@, *final(wire_counter))
            == lowered_expr(
            *expr,
            state_of(old(global_circuit)@, old(existing_gates)@, *old(wire_counter)),
            output_name,
        ),
        extends(old(global_circuit)@, final(global_circuit)@),
        keeps(old(global_circuit)@, final(global_circuit)@),
        *old(wire_counter) <= *final(wire_counter) <= *old(wire_counter) + expr.nodes@.len(),
        final(global_circuit)@.contains_key(output_name),
        computes(final(global_circuit)@, output_name, *expr),
        costs_as(final(global_circuit)@, output_name, *expr),
        forall|l: u64| #[trigger]
            names_wire(expr.nodes@, l) ==> final(global_circuit)@.contains_key(l) && final(global_circuit)@[l].0 == GateType::INPUT,
        forall|w: u64| #[trigger]
            final(global_circuit)@.contains_key(w) ==> old(global_circuit)@.contains_key(w) || w
                == output_name || w >= base || names_wire(expr.nodes@, w),
        forall|w: u64|
            #[trigger] old(global_circuit)@.contains_key(w) && w != output_name ==> final(global_circuit)@[w] == old(global_circuit)@[w],
{
    broadcast use vstd::std_specs::btree::group_btree_axioms;

    proof {
        reveal(state_of);
    }
    let ghost c0 = global_circuit@;
    let ghost counter0 = *wire_counter;
    let ghost s0 = state_of(global_circuit@, existing_gates@, *wire_counter);
    let ghost nodes = expr.nodes@;
    let last: usize = expr.nodes.len() - 1;
    let mut stack: Vec<u64> = Vec::new();
    let mut i: usize = 0;
    while i < expr.nodes.len()
        invariant
            i <= expr.nodes.len(),
            last == expr.nodes.len() - 1,
            nodes == expr.nodes@,
            expr.wf(),
            stack.len() == i,
            output_name < base,
            (state_of(global_circuit@, existing_gates@, *wire_counter), stack@) == lowered_nodes(
                nodes,
                s0,
                output_name,
                i as nat,
            ),
            lowering(global_circuit@, existing_gates@, *wire_counter, base),
            extends(c0, global_circuit@),
            counter0 <= *wire_counter <= counter0 + i,
            counter0 + nodes.len() <= u64::MAX,
            stacked(global_circuit@, nodes, stack@),
            cost_stacked(global_circuit@, nodes, stack@),
            keeps(c0, global_circuit@),
            forall|l: u64| #[trigger]
                names_wire(nodes, l) ==> l < base && (global_circuit@.contains_key(l)
                    ==> global_circuit@[l].0 == GateType::INPUT),
            forall|n: int|
                0 <= n < i ==> (#[trigger] nodes[n] matches Node::Wire(l)
                    ==> global_circuit@.contains_key(l)),
            i <= last && defines(*expr, output_name) ==> !global_circuit@.contains_key(output_name)
                && !names_wire(nodes, output_name),
            i > last ==> global_circuit@.contains_key(output_name) && stack@[last as int]
                == output_name,
            forall|w: u64| #[trigger]
                global_circuit@.contains_key(w) ==> c0.contains_key(w) || w == output_name || w
                    >= base || names_wire(nodes, w),
            forall|w: u64|
                #[trigger] c0.contains_key(w) && w != output_name ==> global_circuit@[w] == c0[w],
        decreases expr.nodes.len() - i,
    {
        let ghost c1 = global_circuit@;
        let ghost s1 = stack@;
        proof {
            reveal(state_of);
        }
        let ghost t1 = state_of(global_circuit@, existing_gates@, *wire_counter);
        assert(node_ok(nodes, i as int));
        assert(lowered_nodes(nodes, s0, output_name, i as nat) == (t1, s1));
        match expr.nodes[i] {
            Node::Wire(w) => {
                assert(names_wire(nodes, w));
                if !global_circuit.contains_key(&w) {
                    let leaf: (GateType, Vec<u64>) = (GateType::INPUT, Vec::new());
                    proof {
                        reveal(lowering);
                        lemma_new_wire(c1, w, leaf);
                    }
                    global_circuit.insert(w, leaf);
                    assert(plain(global_circuit@) =~= plain(c1).insert(
                        w,
                        (GateType::INPUT, Seq::empty()),
                    ));
                }
                let ghost c2 = global_circuit@;
                proof {
                    reveal(lowering);
                    assert(extends(c1, c2));
                    lemma_stack_carries(c1, c2, nodes, s1);
                    assert(keeps(c1, c2));
                    lemma_cost_stack_carries(c1, c2, nodes, s1);
                    assert(c2.contains_key(w) && c2[w].0 == GateType::INPUT);
                }
                if i == last && w != output_name {
                    let mut inputs: Vec<u64> = Vec::new();
                    inputs.push(w);
                    assert(inputs@ =~= seq![w]);
                    let r = add_or_reuse_gate(
                        global_circuit,
                        GateType::CONST,
                        &inputs,
                        existing_gates,
                        wire_counter,
                        Some(output_name),
                        Ghost(base),
                    );
                    proof {
                        lemma_stack_carries(c2, global_circuit@, nodes, s1);
                        let c3 = global_circuit@;
                        assert(keeps(c2, c3));
                        lemma_cost_stack_carries(c2, c3, nodes, s1);
                        assert forall|prices: Map<u64, nat>| #[trigger]
                            priced(c3, prices) implies prices[r] == node_cost(nodes, i as int) by {
                            assert(prices[r] == price_at(c3, prices, r));
                            assert(prices[w] == price_at(c3, prices, w));
                            assert(c3[r].1@[0] == w);
                            assert(!is_gate(c3, w));
                        }
                        assert forall|vals: Map<u64, bool>|
                            satisfies(global_circuit@, vals) implies vals[r] == node_value(
                            nodes,
                            i as int,
                            vals,
                        ) by {
                            assert(global_circuit@.contains_key(r) && global_circuit@[r].0
                                != GateType::INPUT);
                            assert(crate::correctness::input_bit(global_circuit@, vals, r, 0)
                                == vals[w]);
                        }
                        assert forall|l: u64|
                            #[trigger] names_wire(nodes, l) && global_circuit@.contains_key(
                                l,
                            ) implies global_circuit@[l].0 == GateType::INPUT by {
                            assert(l != output_name);
                        }
                    }
                    stack.push(r);
                } else {
                    proof {
                        assert forall|prices: Map<u64, nat>| #[trigger]
                            priced(c2, prices) implies prices[w] == node_cost(nodes, i as int) by {
                            assert(prices[w] == price_at(c2, prices, w));
                        }
                    }
                    stack.push(w);
                }
            },
            Node::Gate(kind, a, b) => {
                let n = operand_count(kind);
                let mut inputs: Vec<u64> = Vec::new();
                if n >= 1 {
                    inputs.push(stack[a]);
                }
                if n >= 2 {
                    inputs.push(stack[b]);
                }
                assert(inputs@ =~= node_inputs(kind, a, b, s1));
                let target = if i == last {
                    Some(output_name)
                } else {
                    None
                };
                let r = add_or_reuse_gate(
                    global_circuit,
                    kind,
                    &inputs,
                    existing_gates,
                    wire_counter,
                    target,
                    Ghost(base),
                );
                proof {
                    reveal(lowering);
                    let c2 = global_circuit@;
                    lemma_stack_carries(c1, c2, nodes, s1);
                    assert(keeps(c1, c2));
                    lemma_cost_stack_carries(c1, c2, nodes, s1);
                    assert forall|prices: Map<u64, nat>| #[trigger] priced(c2, prices) implies prices[r]
                        == node_cost(nodes, i as int) by {
                        assert(prices[r] == price_at(c2, prices, r));
                        assert(is_gate(c2, r));
                        if n >= 1 {
                            assert(input_price(c2, prices, r, 0) == prices[s1[a as int]]);
                            assert(prices[s1[a as int]] == node_cost(nodes, a as int));
                        }
                        if n >= 2 {
                            assert(input_price(c2, prices, r, 1) == prices[s1[b as int]]);
                            assert(prices[s1[b as int]] == node_cost(nodes, b as int));
                        }
                    }
                    assert forall|vals: Map<u64, bool>| satisfies(c2, vals) implies vals[r]
                        == node_value(nodes, i as int, vals) by {
                        assert(c2.contains_key(r) && c2[r].0 != GateType::INPUT);
                        if n >= 1 {
                            assert(crate::correctness::input_bit(c2, vals, r, 0) == vals[s1[a as int]]);
                            assert(vals[s1[a as int]] == node_value(nodes, a as int, vals));
                        }
                        if n >= 2 {
                            assert(crate::correctness::input_bit(c2, vals, r, 1) == vals[s1[b as int]]);
                            assert(vals[s1[b as int]] == node_value(nodes, b as int, vals));
                        }
                    }
                    assert forall|l: u64|
                        #[trigger] names_wire(nodes, l) && c2.contains_key(l) implies c2[l].0
                        == GateType::INPUT by {
                        assert(l != r);
                    }
                    assert forall|w: u64|
                        #[trigger] c0.contains_key(w) && w != output_name implies c2[w] == c0[w] by {
                        assert(c1.contains_key(w));
                        assert(c1[w] == c0[w]);
                        if c2 != c1 {
                            assert(w != r);
                        }
                    }
                }
                stack.push(r);
            },
        }
        proof {
            assert forall|j: int, vals: Map<u64, bool>|
                0 <= j < stack@.len() && satisfies(
                    global_circuit@,
                    vals,
                ) implies vals[stack@[j]] == #[trigger] node_value(nodes, j, vals) by {
                if j < i {
                    assert(stack@[j] == s1[j]);
                }
            }
            assert forall|j: int, prices: Map<u64, nat>|
                0 <= j < stack@.len() && #[trigger] priced(
                    global_circuit@,
                    prices,
                ) implies prices[stack@[j]] == #[trigger] node_cost(nodes, j) by {
                if j < i {
                    assert(stack@[j] == s1[j]);
                    assert(prices[s1[j]] == node_cost(nodes, j));
                }
            }
            lemma_extends_chain(c0, c1, global_circuit@);
        }
        i += 1;
    }
    proof {
        assert forall|l: u64| #[trigger] names_wire(nodes, l) implies global_circuit@.contains_key(
            l,
        ) by {
            let n = choose|n: int| 0 <= n < nodes.len() && #[trigger] nodes[n] == Node::Wire(l);
            assert(nodes[n] matches Node::Wire(x) ==> global_circuit@.contains_key(x));
        }
        assert(costs_as(global_circuit@, output_name, *expr)) by {
            reveal(costs_as);
        }
    }
}

/// Extending a netlist keeps what the wires of the nodes lowered so far
/// compute.
proof fn lemma_stack_carries(c: Netlist, d: Netlist, nodes: Seq<Node>, stack: Seq<u64>)
    requires
        extends(c, d),
        stacked(c, nodes, stack),
    ensures
        stacked(d, nodes, stack),
{
    assert forall|j: int, vals: Map<u64, bool>|
        0 <= j < stack.len() && satisfies(d, vals) implies vals[stack[j]] == #[trigger] node_value(
        nodes,
        j,
        vals,
    ) by {
        lemma_extends_satisfies(c, d, vals);
    }
    assert forall|j: int| 0 <= j < stack.len() implies d.contains_key(#[trigger] stack[j]) by {
        assert(c.contains_key(stack[j]));
    }
}

/// Extending twice is extending.
proof fn lemma_extends_chain(c: Netlist, d: Netlist, e: Netlist)
    requires
        extends(c, d),
        extends(d, e),
    ensures
        extends(c, e),
{
    assert forall|w: u64| #[trigger] c.contains_key(w) implies e.contains_key(w) && (c[w].0
        != GateType::INPUT ==> e[w] == c[w]) by {
        assert(d.contains_key(w));
    }
}

/// No earlier output is the same wire.
pub open spec fn first_at(outputs: Seq<u64>, i: int) -> bool {
    forall|j: int| 0 <= j < i ==> outputs[j] != outputs[i]
}

/// The wires that the expressions give a gate of their own.
pub open spec fn defined_wires(exprs: Seq<Expr>, outputs: Seq<u64>) -> Set<u64> {
    Set::new(
        |o: u64|
            exists|i: int|
                0 <= i < outputs.len() && first_at(outputs, i) && #[trigger] outputs[i] == o
                    && defines(exprs[i], o),
    )
}

/// Some expression has a leaf that an expression gives a gate of its own:
/// the netlist could feed back on itself.
pub open spec fn feeds_back(exprs: Seq<Expr>, outputs: Seq<u64>) -> bool {
    exists|k: int, l: u64|
        0 <= k < exprs.len() && #[trigger] names_wire(exprs[k].nodes@, l) && defined_wires(
            exprs,
            outputs,
        ).contains(l)
}

/// The number of nodes of all the expressions.
pub open spec fn total_nodes(exprs: Seq<Expr>) -> nat
    decreases exprs.len(),
{
    if exprs.len() == 0 {
        0
    } else {
        total_nodes(exprs.drop_last()) + exprs.last().nodes@.len()
    }
}

/// Every output and every leaf lies below `base`.
pub open spec fn below(exprs: Seq<Expr>, outputs: Seq<u64>, base: int) -> bool {
    &&& forall|i: int| 0 <= i < outputs.len() ==> #[trigger] outputs[i] < base
    &&& forall|k: int, l: u64|
        0 <= k < exprs.len() && #[trigger] names_wire(exprs[k].nodes@, l) ==> l < base
}

/// The wires leave no room for the new ones: numbered from above every
/// output and leaf, one new wire for each node would pass the largest number
/// that a wire can have.
pub open spec fn exhausted(exprs: Seq<Expr>, outputs: Seq<u64>) -> bool {
    forall|base: int| #[trigger]
        below(exprs, outputs, base) && base >= 0 ==> base + total_nodes(exprs) > u64::MAX
}

/// One more expression adds its nodes to the total, and a part of the
/// expressions has no more nodes than all of them.
proof fn lemma_total_grows(exprs: Seq<Expr>, i: int)
    requires
        0 <= i < exprs.len(),
    ensures
        total_nodes(exprs.take(i + 1)) == total_nodes(exprs.take(i)) + exprs[i].nodes@.len(),
        total_nodes(exprs.take(i + 1)) <= total_nodes(exprs),
    decreases exprs.len() - i,
{
    assert(exprs.take(i + 1).drop_last() =~= exprs.take(i));
    if i + 1 < exprs.len() {
        lemma_total_grows(exprs, i + 1);
    } else {
        assert(exprs.take(i + 1) =~= exprs);
    }
}

/// The wires that the expressions give a gate of their own.
fn defined_outputs(exprs: &Vec<Expr>, outputs: &Vec<u64>) -> (r: HashSet<u64>)
    requires
        exprs.len() == outputs.len(),
        forall|i: int| 0 <= i < exprs.len() ==> exprs[i].wf(),
    ensures
        r@ == defined_wires(exprs@, outputs@),
{
    broadcast use vstd::std_specs::hash::group_hash_axioms;

    let mut seen: HashSet<u64> = HashSet::new();
    let mut defined: HashSet<u64> = HashSet::new();
    let mut i: usize = 0;
    while i < outputs.len()
        invariant
            i <= outputs.len(),
            exprs.len() == outputs.len(),
            forall|i: int| 0 <= i < exprs.len() ==> exprs[i].wf(),
            forall|o: u64|
                seen@.contains(o) <==> exists|j: int| 0 <= j < i && #[trigger] outputs@[j] == o,
            forall|o: u64|
                defined@.contains(o) <==> exists|j: int|
                    0 <= j < i && first_at(outputs@, j) && #[trigger] outputs@[j] == o && defines(
                        exprs@[j],
                        o,
                    ),
        decreases outputs.len() - i,
    {
        let o: u64 = outputs[i];
        if !seen.contains(&o) {
            assert(first_at(outputs@, i as int));
            seen.insert(o);
            let e = &exprs[i];
            let is_wire = match e.nodes[e.nodes.len() - 1] {
                Node::Wire(w) => w == o,
                _ => false,
            };
            if !is_wire {
                defined.insert(o);
                assert(defines(exprs@[i as int], o));
            }
        } else {
            assert(!first_at(outputs@, i as int));
        }
        i += 1;
    }
    assert(defined@ =~= defined_wires(exprs@, outputs@));
    defined
}

/// Whether a leaf of the expression is in the set.
fn names_any(expr: &Expr, wires: &HashSet<u64>) -> (r: bool)
    ensures
        r == exists|l: u64| #[trigger] names_wire(expr.nodes@, l) && wires@.contains(l),
{
    broadcast use vstd::std_specs::hash::group_hash_axioms;

    let mut n: usize = 0;
    while n < expr.nodes.len()
        invariant
            n <= expr.nodes.len(),
            forall|m: int|
                0 <= m < n ==> (#[trigger] expr.nodes@[m] matches Node::Wire(l)
                    ==> !wires@.contains(l)),
        decreases expr.nodes.len() - n,
    {
        if let Node::Wire(l) = expr.nodes[n] {
            if wires.contains(&l) {
                assert(names_wire(expr.nodes@, l));
                return true;
            }
        }
        n += 1;
    }
    assert forall|l: u64| #[trigger] names_wire(expr.nodes@, l) implies !wires@.contains(l) by {
        let m = choose|m: int| 0 <= m < expr.nodes@.len() && #[trigger] expr.nodes@[m] == Node::Wire(
            l,
        );
        assert(expr.nodes@[m] matches Node::Wire(x) ==> !wires@.contains(x));
    }
    false
}

/// The least number above every leaf of the expression and above `floor`.
fn above_leaves(expr: &Expr, floor: u128) -> (r: u128)
    requires
        floor <= u64::MAX + 1,
    ensures
        floor <= r <= u64::MAX + 1,
        forall|l: u64| #[trigger] names_wire(expr.nodes@, l) ==> l < r,
        r == floor || exists|l: u64| #[trigger] names_wire(expr.nodes@, l) && r == l + 1,
{
    let mut r: u128 = floor;
    let mut n: usize = 0;
    while n < expr.nodes.len()
        invariant
            n <= expr.nodes.len(),
            floor <= r <= u64::MAX + 1,
            forall|m: int|
                0 <= m < n ==> (#[trigger] expr.nodes@[m] matches Node::Wire(l) ==> l < r),
            r == floor || exists|l: u64| #[trigger] names_wire(expr.nodes@, l) && r == l + 1,
        decreases expr.nodes.len() - n,
    {
        if let Node::Wire(l) = expr.nodes[n] {
            if l as u128 >= r {
                r = l as u128 + 1;
                assert(names_wire(expr.nodes@, l));
            }
        }
        n += 1;
    }
    assert forall|l: u64| #[trigger] names_wire(expr.nodes@, l) implies l < r by {
        let m = choose|m: int| 0 <= m < expr.nodes@.len() && #[trigger] expr.nodes@[m] == Node::Wire(
            l,
        );
        assert(expr.nodes@[m] matches Node::Wire(x) ==> x < r);
    }
    r
}

/// `base` is the first number above every output and every leaf.
pub open spec fn is_first_free(exprs: Seq<Expr>, outputs: Seq<u64>, base: int) -> bool {
    &&& base >= 0
    &&& below(exprs, outputs, base)
    &&& forall|other: int| other >= 0 && #[trigger] below(exprs, outputs, other) ==> base <= other
}

/// The first number above every output and every leaf.
pub open spec fn first_free(exprs: Seq<Expr>, outputs: Seq<u64>) -> int {
    choose|base: int| is_first_free(exprs, outputs, base)
}

/// The state after the first `upto` outputs are lowered, one after the
/// other; of a wire that is listed twice, only the first expression is
/// lowered.
pub open spec fn lowered_outputs(exprs: Seq<Expr>, outputs: Seq<u64>, start: Lowered, upto: nat) -> Lowered
    decreases upto,
{
    if upto == 0 {
        start
    } else {
        let s = lowered_outputs(exprs, outputs, start, (upto - 1) as nat);
        if first_at(outputs, upto - 1) {
            lowered_expr(exprs[upto - 1], s, outputs[upto - 1])
        } else {
            s
        }
    }
}

/// The netlist that the expressions lower to: from no gate at all, with the
/// new wires numbered from the first number above every output and leaf.
pub open spec fn lowered(exprs: Seq<Expr>, outputs: Seq<u64>) -> Gates {
    lowered_outputs(
        exprs,
        outputs,
        Lowered {
            gates: Map::empty(),
            shared: Map::empty(),
            counter: first_free(exprs, outputs) as u64,
        },
        outputs.len(),
    ).gates
}

/// The wire is one that the lowering has made: a wire of the netlist that
/// is neither an output nor a leaf of an expression.
pub open spec fn is_new(exprs: Seq<Expr>, outputs: Seq<u64>, c: Netlist, w: u64) -> bool {
    &&& c.contains_key(w)
    &&& !outputs.contains(w)
    &&& forall|k: int| 0 <= k < exprs.len() ==> !names_wire(#[trigger] exprs[k].nodes@, w)
}

/// Lifts the cone of every output wire to an expression.
///
/// With no output there is nothing to do. Otherwise the call fails with
/// `CycleDetected` exactly when the netlist has a cycle, and else with
/// `ArityMismatch` exactly when some gate has another number of inputs than
/// its kind reads.
pub fn lift_outputs(circuit: &Circuit, outputs: &Vec<u64>) -> (r: Result<Vec<Expr>, ProtocolError>)
    ensures
        match r {
            Ok(exprs) => {
                &&& exprs.len() == outputs.len()
                &&& outputs.len() > 0 ==> acyclic(circuit@) && !ill_fitting(circuit@)
                &&& forall|i: int|
                    0 <= i < exprs.len() ==> (#[trigger] exprs[i]).nodes@ == cone_of(
                        circuit,
                        outputs[i],
                    )
                &&& forall|i: int|
                    0 <= i < exprs.len() ==> (#[trigger] exprs[i]).wf() && lifted(
                        circuit@,
                        outputs[i],
                        exprs[i],
                    ) && forall|l: u64|
                        exprs[i].has_leaf(l) ==> in_cone(circuit@, outputs[i], l)
            },
            Err(e) => outputs.len() > 0 && match e {
                ProtocolError::CycleDetected => !acyclic(circuit@),
                ProtocolError::ArityMismatch => acyclic(circuit@) && ill_fitting(circuit@),
                _ => false,
            },
        },
{
    let mut exprs: Vec<Expr> = Vec::new();
    let mut i: usize = 0;
    while i < outputs.len()
        invariant
            i <= outputs.len(),
            exprs.len() == i,
            i > 0 ==> acyclic(circuit@) && !ill_fitting(circuit@),
            forall|j: int|
                0 <= j < i ==> (#[trigger] exprs[j]).nodes@ == cone_of(circuit, outputs[j]),
            forall|j: int|
                0 <= j < i ==> (#[trigger] exprs[j]).wf() && lifted(circuit@, outputs[j], exprs[j])
                    && forall|l: u64| exprs[j].has_leaf(l) ==> in_cone(circuit@, outputs[j], l),
        decreases outputs.len() - i,
    {
        match build_expr(circuit, outputs[i]) {
            Ok(e) => {
                exprs.push(e);
            },
            Err(e) => {
                return Err(e);
            },
        }
        i += 1;
    }
    Ok(exprs)
}

/// What holds of the netlist when the first `i` outputs are lowered: every
/// output lowered so far has its wire, which computes and costs what its
/// expression does, over leaves that are there; a leaf that is there is an
/// input wire; and every wire is a new one, an output or a leaf.
#[verifier::opaque]
spec fn lowered_so_far(exprs: Seq<Expr>, outputs: Seq<u64>, base: u64, c: Netlist, i: int) -> bool {
    &&& forall|j: int|
        0 <= j < i && first_at(outputs, j) ==> {
            &&& c.contains_key(#[trigger] outputs[j])
            &&& computes(c, outputs[j], exprs[j])
            &&& costs_as(c, outputs[j], exprs[j])
            &&& forall|l: u64| #[trigger] names_wire(exprs[j].nodes@, l) ==> c.contains_key(l)
        }
    &&& forall|k: int, l: u64|
        0 <= k < exprs.len() && #[trigger] names_wire(exprs[k].nodes@, l) && c.contains_key(l)
            ==> c[l].0 == GateType::INPUT
    &&& forall|w: u64| #[trigger]
        c.contains_key(w) ==> w >= base || (exists|j: int| 0 <= j < i && outputs[j] == w)
            || exists|k: int| 0 <= k < exprs.len() && names_wire(#[trigger] exprs[k].nodes@, w)
}

/// The next output can be lowered: its leaves lie below the new wires and
/// are input wires where they are there, and its wire is free if its
/// expression is more than that wire.
proof fn lemma_may_lower(exprs: Seq<Expr>, outputs: Seq<u64>, base: u64, c: Netlist, i: int)
    requires
        0 <= i < outputs.len() == exprs.len(),
        first_at(outputs, i),
        !feeds_back(exprs, outputs),
        below(exprs, outputs, base as int),
        lowered_so_far(exprs, outputs, base, c, i),
    ensures
        outputs[i] < base,
        forall|l: u64| #[trigger]
            names_wire(exprs[i].nodes@, l) ==> l < base && (c.contains_key(l) ==> c[l].0
                == GateType::INPUT),
        defines(exprs[i], outputs[i]) ==> !c.contains_key(outputs[i]) && !names_wire(
            exprs[i].nodes@,
            outputs[i],
        ),
{
    reveal(lowered_so_far);
    let o = outputs[i];
    if defines(exprs[i], o) {
        assert(defined_wires(exprs, outputs).contains(outputs[i]));
        assert forall|k: int| 0 <= k < exprs.len() implies !names_wire(
            #[trigger] exprs[k].nodes@,
            o,
        ) by {
            if names_wire(exprs[k].nodes@, o) {
                assert(feeds_back(exprs, outputs));
            }
        }
        if c.contains_key(o) {
            assert(o < base);
            assert(!(exists|j: int| 0 <= j < i && outputs[j] == o));
        }
    }
}

/// Lowering the next output keeps what holds of the netlist.
proof fn lemma_lowered_one_more(
    exprs: Seq<Expr>,
    outputs: Seq<u64>,
    base: u64,
    c1: Netlist,
    c2: Netlist,
    i: int,
)
    requires
        0 <= i < outputs.len() == exprs.len(),
        exprs[i].wf(),
        first_at(outputs, i),
        !feeds_back(exprs, outputs),
        below(exprs, outputs, base as int),
        closed(c1),
        lowered_so_far(exprs, outputs, base, c1, i),
        extends(c1, c2),
        keeps(c1, c2),
        c2.contains_key(outputs[i]),
        computes(c2, outputs[i], exprs[i]),
        costs_as(c2, outputs[i], exprs[i]),
        forall|l: u64| #[trigger]
            names_wire(exprs[i].nodes@, l) ==> c2.contains_key(l) && c2[l].0 == GateType::INPUT,
        forall|w: u64| #[trigger]
            c2.contains_key(w) ==> c1.contains_key(w) || w == outputs[i] || w >= base
                || names_wire(exprs[i].nodes@, w),
        forall|w: u64| #[trigger] c1.contains_key(w) && w != outputs[i] ==> c2[w] == c1[w],
    ensures
        lowered_so_far(exprs, outputs, base, c2, i + 1),
{
    reveal(lowered_so_far);
    let o = outputs[i];
    assert forall|j: int| 0 <= j < i + 1 && first_at(outputs, j) implies {
        &&& c2.contains_key(#[trigger] outputs[j])
        &&& computes(c2, outputs[j], exprs[j])
        &&& costs_as(c2, outputs[j], exprs[j])
        &&& forall|l: u64| #[trigger] names_wire(exprs[j].nodes@, l) ==> c2.contains_key(l)
    } by {
        if j < i {
            assert(c1.contains_key(outputs[j]));
            lemma_cost_carries(c1, c2, outputs[j], exprs[j]);
            assert forall|vals: Map<u64, bool>| satisfies(c2, vals) implies vals[outputs[j]]
                == #[trigger] exprs[j].value(vals) by {
                lemma_extends_satisfies(c1, c2, vals);
            }
            assert forall|l: u64| #[trigger] names_wire(exprs[j].nodes@, l) implies c2.contains_key(
                l,
            ) by {
                assert(c1.contains_key(l));
            }
        }
    }
    assert forall|k: int, l: u64|
        0 <= k < exprs.len() && #[trigger] names_wire(exprs[k].nodes@, l) && c2.contains_key(
            l,
        ) implies c2[l].0 == GateType::INPUT by {
        if names_wire(exprs[i].nodes@, l) {
        } else {
            if l == o {
                assert(!defines(exprs[i], o)) by {
                    if defines(exprs[i], o) {
                        assert(defined_wires(exprs, outputs).contains(outputs[i]));
                        assert(feeds_back(exprs, outputs));
                    }
                }
                let e = exprs[i];
                assert(e.nodes@[e.nodes@.len() - 1] == Node::Wire(o));
                assert(names_wire(e.nodes@, o));
            } else {
                assert(l < base);
                assert(c1.contains_key(l));
            }
        }
    }
    assert forall|w: u64| #[trigger] c2.contains_key(w) implies w >= base || (exists|j: int|
        0 <= j < i + 1 && outputs[j] == w) || exists|k: int|
        0 <= k < exprs.len() && names_wire(#[trigger] exprs[k].nodes@, w) by {
        if w == o {
            assert(outputs[i] == w);
        } else if c1.contains_key(w) {
            if exists|j: int| 0 <= j < i && outputs[j] == w {
                let j = choose|j: int| 0 <= j < i && outputs[j] == w;
                assert(0 <= j < i + 1 && outputs[j] == w);
            }
        } else if w < base {
            assert(names_wire(exprs[i].nodes@, w));
        }
    }
}

/// An output whose wire was lowered before changes nothing.
proof fn lemma_lowered_none_more(
    exprs: Seq<Expr>,
    outputs: Seq<u64>,
    base: u64,
    c: Netlist,
    i: int,
)
    requires
        0 <= i < outputs.len() == exprs.len(),
        !first_at(outputs, i),
        lowered_so_far(exprs, outputs, base, c, i),
    ensures
        lowered_so_far(exprs, outputs, base, c, i + 1),
{
    reveal(lowered_so_far);
    assert forall|w: u64| #[trigger] c.contains_key(w) implies w >= base || (exists|j: int|
        0 <= j < i + 1 && outputs[j] == w) || exists|k: int|
        0 <= k < exprs.len() && names_wire(#[trigger] exprs[k].nodes@, w) by {
        if exists|j: int| 0 <= j < i && outputs[j] == w {
            let j = choose|j: int| 0 <= j < i && outputs[j] == w;
            assert(0 <= j < i + 1 && outputs[j] == w);
        }
    }
}

/// What holds of the netlist when every output is lowered.
proof fn lemma_lowered_all(
    exprs: Seq<Expr>,
    outputs: Seq<u64>,
    base: u64,
    c: Netlist,
    shared: Map<(u8, u64, u64), u64>,
    counter: u64,
)
    requires
        exprs.len() == outputs.len(),
        lowering(c, shared, counter, base),
        lowered_so_far(exprs, outputs, base, c, outputs.len() as int),
    ensures
        acyclic(c),
        closed(c),
        well_sized(c),
        forall|i: int| 0 <= i < outputs.len() ==> c.contains_key(#[trigger] outputs[i]),
        forall|v: u64, w: u64|
            is_new(exprs, outputs, c, v) && is_new(exprs, outputs, c, w) && c[v].0 == c[w].0
                && #[trigger] c[v].1@ == #[trigger] c[w].1@ ==> v == w,
        forall|i: int|
            0 <= i < outputs.len() && first_at(outputs, i) ==> {
                &&& c.contains_key(#[trigger] outputs[i])
                &&& computes(c, outputs[i], exprs[i])
                &&& costs_as(c, outputs[i], exprs[i])
                &&& forall|l: u64| #[trigger]
                    names_wire(exprs[i].nodes@, l) ==> c.contains_key(l) && c[l].0
                        == GateType::INPUT
            },
{
    reveal(lowering);
    reveal(lowered_so_far);
    assert forall|v: u64| is_new(exprs, outputs, c, v) implies v >= base by {
        assert(c.contains_key(v));
        if exists|j: int| 0 <= j < outputs.len() && outputs[j] == v {
            let j = choose|j: int| 0 <= j < outputs.len() && outputs[j] == v;
            assert(outputs.contains(v));
        }
    }
    assert forall|v: u64, w: u64|
        is_new(exprs, outputs, c, v) && is_new(exprs, outputs, c, w) && c[v].0 == c[w].0
            && #[trigger] c[v].1@ == #[trigger] c[w].1@ implies v == w by {
        assert(c.contains_key(v) && c.contains_key(w));
        assert(v >= base && w >= base);
        assert(is_shared(c, shared, v));
        assert(is_shared(c, shared, w));
    }
    assert forall|i: int| 0 <= i < outputs.len() implies c.contains_key(#[trigger] outputs[i]) by {
        lemma_first_place(outputs, i);
        assert(c.contains_key(outputs[first_place(outputs, i)]));
    }
}

/// The number from which the new wires are counted: the first above every
/// output and leaf. Fails with `CycleDetected` when a leaf is a wire that
/// an expression drives, and else with `UnknownWire` when the wires leave no
/// room for the new ones.
fn first_new_wire(exprs: &Vec<Expr>, outputs: &Vec<u64>) -> (r: Result<u64, ProtocolError>)
    requires
        exprs.len() == outputs.len(),
        forall|i: int| 0 <= i < exprs.len() ==> (#[trigger] exprs[i]).wf(),
    ensures
        match r {
            Ok(base) => {
                &&& !feeds_back(exprs@, outputs@)
                &&& !exhausted(exprs@, outputs@)
                &&& is_first_free(exprs@, outputs@, base as int)
                &&& base + total_nodes(exprs@) <= u64::MAX
            },
            Err(e) => match e {
                ProtocolError::CycleDetected => feeds_back(exprs@, outputs@),
                ProtocolError::UnknownWire => !feeds_back(exprs@, outputs@) && exhausted(
                    exprs@,
                    outputs@,
                ),
                _ => false,
            },
        },
{
    broadcast use vstd::std_specs::hash::group_hash_axioms;

    let defined = defined_outputs(exprs, outputs);
    let mut floor: u128 = 0;
    let mut total: u128 = 0;
    let mut k: usize = 0;
    assert(exprs@.take(0) =~= Seq::<Expr>::empty());
    while k < exprs.len()
        invariant
            k <= exprs.len(),
            exprs.len() == outputs.len(),
            forall|j: int| 0 <= j < exprs.len() ==> (#[trigger] exprs[j]).wf(),
            defined@ == defined_wires(exprs@, outputs@),
            floor <= u64::MAX + 1,
            total == total_nodes(exprs@.take(k as int)),
            total <= k * usize::MAX,
            forall|j: int, l: u64|
                0 <= j < k && #[trigger] names_wire(exprs[j].nodes@, l) ==> l < floor
                    && !defined@.contains(l),
            floor == 0 || exists|j: int, l: u64|
                0 <= j < k && #[trigger] names_wire(exprs[j].nodes@, l) && floor == l + 1,
        decreases exprs.len() - k,
    {
        if names_any(&exprs[k], &defined) {
            return Err(ProtocolError::CycleDetected);
        }
        floor = above_leaves(&exprs[k], floor);
        let count: usize = exprs[k].nodes.len();
        proof {
            lemma_total_grows(exprs@, k as int);
            assert(total + count <= (k + 1) * usize::MAX) by (nonlinear_arith)
                requires
                    total <= k * usize::MAX,
                    count <= usize::MAX,
            ;
        }
        total = total + count as u128;
        k += 1;
    }
    assert(exprs@.take(k as int) =~= exprs@);
    let mut i: usize = 0;
    while i < outputs.len()
        invariant
            i <= outputs.len(),
            floor <= u64::MAX + 1,
            forall|j: int| 0 <= j < i ==> #[trigger] outputs[j] < floor,
            forall|j: int, l: u64|
                0 <= j < exprs.len() && #[trigger] names_wire(exprs[j].nodes@, l) ==> l < floor,
            floor == 0 || (exists|j: int, l: u64|
                0 <= j < exprs.len() && #[trigger] names_wire(exprs[j].nodes@, l) && floor == l
                    + 1) || (exists|j: int| 0 <= j < i && floor == #[trigger] outputs[j] + 1),
        decreases outputs.len() - i,
    {
        if outputs[i] as u128 >= floor {
            floor = outputs[i] as u128 + 1;
        }
        i += 1;
    }
    proof {
        assert(!feeds_back(exprs@, outputs@));
        assert(below(exprs@, outputs@, floor as int));
        assert forall|base: int| #[trigger]
            below(exprs@, outputs@, base) && base >= 0 implies base >= floor by {
            if floor != 0 {
                if exists|j: int, l: u64|
                    0 <= j < exprs.len() && #[trigger] names_wire(exprs[j].nodes@, l) && floor
                        == l + 1 {
                    let (j, l) = choose|j: int, l: u64|
                        0 <= j < exprs.len() && #[trigger] names_wire(exprs[j].nodes@, l) && floor
                            == l + 1;
                    assert(names_wire(exprs[j].nodes@, l));
                } else {
                    let j = choose|j: int|
                        0 <= j < outputs.len() && floor == #[trigger] outputs[j] + 1;
                    assert(outputs[j] < base);
                }
            }
        }
    }
    if floor + total > u64::MAX as u128 {
        return Err(ProtocolError::UnknownWire);
    }
    Ok(floor as u64)
}

/// Lowers the expressions of the output wires to one netlist. Expression
/// `i` drives the wire `outputs[i]`; of a wire that is listed twice, the
/// first expression counts. Leaves become input wires of the netlist and
/// every other node a gate; equal gates share one wire, within an expression
/// and across them. The new wires are numbered upwards from the first number
/// above every output and leaf.
///
/// Fails with `ArityMismatch` exactly when there is not one expression for
/// each output or some expression is not well formed; otherwise with
/// `CycleDetected` exactly when a leaf of some expression is a wire that an
/// expression drives; otherwise with `UnknownWire` exactly when the wires
/// leave no room for the new ones.
pub fn lower_outputs(exprs: &Vec<Expr>, outputs: &Vec<u64>) -> (r: Result<Circuit, ProtocolError>)
    ensures
        match r {
            Ok(c) => {
                &&& exprs.len() == outputs.len()
                &&& !feeds_back(exprs@, outputs@)
                &&& !exhausted(exprs@, outputs@)
                &&& plain(c@) == lowered(exprs@, outputs@)
                &&& acyclic(c@)
                &&& closed(c@)
                &&& well_sized(c@)
                &&& forall|i: int| 0 <= i < outputs.len() ==> c@.contains_key(#[trigger] outputs[i])
                &&& forall|v: u64, w: u64|
                    is_new(exprs@, outputs@, c@, v) && is_new(exprs@, outputs@, c@, w) && c@[v].0
                        == c@[w].0 && #[trigger] c@[v].1@ == #[trigger] c@[w].1@ ==> v == w
                &&& forall|i: int|
                    0 <= i < outputs.len() && first_at(outputs@, i) ==> {
                        &&& c@.contains_key(#[trigger] outputs[i])
                        &&& computes(c@, outputs[i], exprs[i])
                        &&& costs_as(c@, outputs[i], exprs[i])
                        &&& forall|l: u64| #[trigger]
                            names_wire(exprs[i].nodes@, l) ==> c@.contains_key(l) && c@[l].0
                                == GateType::INPUT
                    }
            },
            Err(e) => match e {
                ProtocolError::ArityMismatch => exprs.len() != outputs.len() || exists|i: int|
                    0 <= i < exprs.len() && !(#[trigger] exprs[i]).wf(),
                ProtocolError::CycleDetected => {
                    &&& exprs.len() == outputs.len()
                    &&& forall|i: int| 0 <= i < exprs.len() ==> (#[trigger] exprs[i]).wf()
                    &&& feeds_back(exprs@, outputs@)
                },
                ProtocolError::UnknownWire => {
                    &&& exprs.len() == outputs.len()
                    &&& forall|i: int| 0 <= i < exprs.len() ==> (#[trigger] exprs[i]).wf()
                    &&& !feeds_back(exprs@, outputs@)
                    &&& exhausted(exprs@, outputs@)
                },
                _ => false,
            },
        },
{
    broadcast use vstd::std_specs::btree::group_btree_axioms;
    broadcast use vstd::std_specs::hash::group_hash_axioms;

    if exprs.len() != outputs.len() {
        return Err(ProtocolError::ArityMismatch);
    }
    let mut k: usize = 0;
    while k < exprs.len()
        invariant
            k <= exprs.len(),
            forall|j: int| 0 <= j < k ==> (#[trigger] exprs[j]).wf(),
        decreases exprs.len() - k,
    {
        if !exprs[k].is_wf() {
            return Err(ProtocolError::ArityMismatch);
        }
        k += 1;
    }
    let base: u64 = match first_new_wire(exprs, outputs) {
        Ok(base) => base,
        Err(e) => {
            return Err(e);
        },
    };
    let mut circuit: Circuit = BTreeMap::new();
    let mut existing_gates: BTreeMap<(u8, u64, u64), u64> = BTreeMap::new();
    let mut wire_counter: u64 = base;
    let mut seen: HashSet<u64> = HashSet::new();
    let ghost start = state_of(circuit@, existing_gates@, wire_counter);
    proof {
        assert(first_free(exprs@, outputs@) == base) by {
            let other = first_free(exprs@, outputs@);
            assert(is_first_free(exprs@, outputs@, other));
        }
        assert(start == Lowered { gates: Map::empty(), shared: Map::empty(), counter: base }) by {
            reveal(state_of);
            assert(plain(circuit@) =~= Map::empty());
        }
        reveal(lowering);
        let nothing = Seq::<u64>::empty();
        assert(is_topological(circuit@, nothing)) by {
            assert forall|w: u64| mentions(circuit@, w) <==> #[trigger] nothing.contains(w) by {
                if mentions(circuit@, w) {
                    if !circuit@.contains_key(w) {
                        let g = choose|g: u64| reads(circuit@, g, w);
                        assert(reads(circuit@, g, w));
                    }
                }
            }
        }
        assert(exprs@.take(0) =~= Seq::<Expr>::empty());
    }
    proof {
        assert(lowered_so_far(exprs@, outputs@, base, circuit@, 0)) by {
            reveal(lowered_so_far);
        }
    }
    let mut i: usize = 0;
    while i < outputs.len()
        invariant
            i <= outputs.len(),
            exprs.len() == outputs.len(),
            forall|j: int| 0 <= j < exprs.len() ==> (#[trigger] exprs[j]).wf(),
            !feeds_back(exprs@, outputs@),
            below(exprs@, outputs@, base as int),
            base + total_nodes(exprs@) <= u64::MAX,
            lowering(circuit@, existing_gates@, wire_counter, base),
            state_of(circuit@, existing_gates@, wire_counter) == lowered_outputs(
                exprs@,
                outputs@,
                start,
                i as nat,
            ),
            wire_counter <= base + total_nodes(exprs@.take(i as int)),
            forall|o: u64|
                seen@.contains(o) <==> exists|j: int| 0 <= j < i && #[trigger] outputs@[j] == o,
            lowered_so_far(exprs@, outputs@, base, circuit@, i as int),
        decreases outputs.len() - i,
    {
        let o: u64 = outputs[i];
        proof {
            lemma_total_grows(exprs@, i as int);
        }
        if !seen.contains(&o) {
            let ghost c1 = circuit@;
            proof {
                assert(first_at(outputs@, i as int));
                lemma_may_lower(exprs@, outputs@, base, c1, i as int);
            }
            build_circuit(
                &exprs[i],
                &mut circuit,
                &mut existing_gates,
                &mut wire_counter,
                o,
                Ghost(base),
            );
            seen.insert(o);
            proof {
                assert(closed(c1)) by {
                    reveal(lowering);
                }
                lemma_lowered_one_more(exprs@, outputs@, base, c1, circuit@, i as int);
            }
        } else {
            proof {
                let j = choose|j: int| 0 <= j < i && #[trigger] outputs@[j] == o;
                assert(outputs@[j] == outputs@[i as int]);
                assert(!first_at(outputs@, i as int));
                lemma_lowered_none_more(exprs@, outputs@, base, circuit@, i as int);
            }
        }
        i += 1;
    }
    proof {
        lemma_lowered_all(exprs@, outputs@, base, circuit@, existing_gates@, wire_counter);
        assert(plain(circuit@) == lowered(exprs@, outputs@)) by {
            reveal(state_of);
        }
    }
    Ok(circuit)
}

/// The optimizer keeps the outputs. Let an expression say what a netlist
/// computes on a wire, let a second expression have the same truth table,
/// and let a second netlist compute that expression on the wire. Then under
/// any two assignments that agree with the gates of their netlist, and with
/// each other on the leaves of the second expression, the wire has the same
/// bit in both.
pub proof fn theorem_optimizer_is_sound(
    c: Netlist,
    d: Netlist,
    w: u64,
    e: Expr,
    f: Expr,
    vals: Map<u64, bool>,
    other: Map<u64, bool>,
)
    requires
        lifted(c, w, e),
        crate::optimizer::equivalent(e, f),
        computes(d, w, f),
        satisfies(c, vals),
        satisfies(d, other),
        forall|l: u64| f.has_leaf(l) ==> vals[l] == other[l],
    ensures
        other[w] == vals[w],
{
    crate::optimizer::lemma_value_of_leaves(f.nodes@, f.nodes@.len() - 1, vals, other);
    assert(other[w] == f.value(other));
    assert(f.value(other) == f.value(vals));
    assert(e.value(vals) == f.value(vals));
    assert(e.value(vals) == vals[w]);
}

/// The wire has the same bit in both netlists, whenever the input wires of
/// the second have the same bits in both.
pub open spec fn same_output(c: Netlist, d: Netlist, w: u64) -> bool {
    forall|vals: Map<u64, bool>, other: Map<u64, bool>|
        #![trigger satisfies(c, vals), satisfies(d, other)]
        satisfies(c, vals) && satisfies(d, other) && (forall|l: u64|
            d.contains_key(l) && d[l].0 == GateType::INPUT ==> vals[l] == other[l]) ==> other[w]
            == vals[w]
}

/// The result is what the netlist is remade to: for every output, `lifts`
/// has the expression of its cone, which says what the netlist computes on
/// the output, `cands` what `simplify` gave for it and `bests` the one of
/// the two that is kept. A leaf of `bests` that one of them drives gives
/// `CycleDetected`; else wires that leave no room for the new ones give
/// `UnknownWire`; else the result is the netlist that `bests` lowers to,
/// which computes on every output what `bests` has for it, at the cost of
/// what `bests` has for it.
pub open spec fn remade<F: Fn(&Expr) -> Expr>(
    circuit: &Circuit,
    outputs: Seq<u64>,
    simplify: F,
    r: Result<Circuit, ProtocolError>,
    lifts: Seq<Expr>,
    cands: Seq<Expr>,
    bests: Seq<Expr>,
) -> bool {
    &&& lifts.len() == outputs.len()
    &&& cands.len() == outputs.len()
    &&& bests.len() == outputs.len()
    &&& forall|i: int|
        0 <= i < outputs.len() ==> {
            &&& (#[trigger] lifts[i]).nodes@ == cone_of(circuit, outputs[i])
            &&& lifted(circuit@, outputs[i], lifts[i])
            &&& costs_as(circuit@, outputs[i], lifts[i])
            &&& simplify.ensures((&lifts[i],), cands[i])
            &&& bests[i] == kept(lifts[i], cands[i])
        }
    &&& match r {
        Ok(d) => {
            &&& !feeds_back(bests, outputs)
            &&& !exhausted(bests, outputs)
            &&& plain(d@) == lowered(bests, outputs)
            &&& forall|i: int|
                0 <= i < outputs.len() && first_at(outputs, i) ==> computes(
                    d@,
                    outputs[i],
                    #[trigger] bests[i],
                ) && costs_as(d@, outputs[i], bests[i])
        },
        Err(e) => match e {
            ProtocolError::CycleDetected => feeds_back(bests, outputs),
            ProtocolError::UnknownWire => !feeds_back(bests, outputs) && exhausted(bests, outputs),
            _ => false,
        },
    }
}

/// Rewriting never makes an output dearer: the expression that is lowered
/// for an output costs no more than the expression of its cone.
pub proof fn lemma_remade_costs_no_more<F: Fn(&Expr) -> Expr>(
    circuit: &Circuit,
    outputs: Seq<u64>,
    simplify: F,
    r: Result<Circuit, ProtocolError>,
    lifts: Seq<Expr>,
    cands: Seq<Expr>,
    bests: Seq<Expr>,
)
    requires
        remade(circuit, outputs, simplify, r, lifts, cands, bests),
    ensures
        forall|i: int|
            0 <= i < outputs.len() ==> (#[trigger] bests[i]).garble_cost() <= lifts[i].garble_cost(),
{
    assert forall|i: int| 0 <= i < outputs.len() implies (#[trigger] bests[i]).garble_cost()
        <= lifts[i].garble_cost() by {
        assert(lifts[i].nodes@ == cone_of(circuit, outputs[i]));
    }
}

/// The wire costs no more in the second netlist than in the first.
pub open spec fn costs_no_more(c: Netlist, d: Netlist, w: u64) -> bool {
    forall|prices: Map<u64, nat>, other: Map<u64, nat>|
        #![trigger priced(c, prices), priced(d, other)]
        priced(c, prices) && priced(d, other) ==> other[w] <= prices[w]
}

/// The optimizer never raises the cost. Let an expression cost what a
/// wire costs in a netlist, and a second expression, which costs no more,
/// what the wire costs in a second netlist. Then the wire costs no more in
/// the second netlist than in the first.
pub proof fn theorem_optimizer_costs_no_more(c: Netlist, d: Netlist, w: u64, e: Expr, f: Expr)
    requires
        costs_as(c, w, e),
        costs_as(d, w, f),
        f.garble_cost() <= e.garble_cost(),
    ensures
        costs_no_more(c, d, w),
{
    reveal(costs_as);
}

/// The price of a wire after the first `upto` wires of `order` are priced:
/// a wire costs what a wire that no gate drives costs until its turn comes,
/// and a wire that a gate drives then gets the price of its gate.
pub open spec fn price_after(c: Netlist, order: Seq<u64>, upto: int, w: u64) -> nat
    decreases upto,
{
    if upto <= 0 || upto > order.len() {
        4
    } else if order[upto - 1] == w && is_gate(c, w) {
        gate_price(
            c[w].0,
            if c[w].1@.len() >= 1 {
                price_after(c, order, upto - 1, c[w].1@[0])
            } else {
                0
            },
            if c[w].1@.len() >= 2 {
                price_after(c, order, upto - 1, c[w].1@[1])
            } else {
                0
            },
        )
    } else {
        price_after(c, order, upto - 1, w)
    }
}

/// A wire keeps its price while the wires that are priced are other wires.
proof fn lemma_price_stays(c: Netlist, order: Seq<u64>, from: int, upto: int, w: u64)
    requires
        0 <= from <= upto <= order.len(),
        forall|j: int| from <= j < upto ==> order[j] != w,
    ensures
        price_after(c, order, upto, w) == price_after(c, order, from, w),
    decreases upto - from,
{
    if from < upto {
        lemma_price_stays(c, order, from, upto - 1, w);
    }
}

/// A wire that no gate drives keeps the price of such a wire.
proof fn lemma_leaf_price(c: Netlist, order: Seq<u64>, upto: int, w: u64)
    requires
        !is_gate(c, w),
    ensures
        price_after(c, order, upto, w) == 4,
    decreases upto,
{
    if 0 < upto <= order.len() {
        lemma_leaf_price(c, order, upto - 1, w);
    }
}

/// When the turn of a gate comes, the wires that it reads have the prices
/// that they keep.
proof fn lemma_input_is_priced(c: Netlist, order: Seq<u64>, at: int, k: int)
    requires
        is_topological(c, order),
        0 <= at < order.len(),
        c.contains_key(order[at]),
        0 <= k < c[order[at]].1@.len(),
    ensures
        price_after(c, order, at, c[order[at]].1@[k]) == price_after(
            c,
            order,
            order.len() as int,
            c[order[at]].1@[k],
        ),
{
    let v = c[order[at]].1@[k];
    assert(reads(c, order[at], v));
    let j = choose|j: int| 0 <= j < at && order[j] == v;
    assert forall|i: int| at <= i < order.len() implies order[i] != v by {
        assert(order[j] == v);
    }
    lemma_price_stays(c, order, at, order.len() as int, v);
}

/// The wires of an acyclic netlist have their prices: one wire after the
/// other, in an order in which every gate comes after what it reads.
pub proof fn lemma_prices_exist(c: Netlist, order: Seq<u64>) -> (prices: Map<u64, nat>)
    requires
        is_topological(c, order),
    ensures
        priced(c, prices),
{
    let n = order.len() as int;
    let prices = Map::new(|w: u64| true, |w: u64| price_after(c, order, n, w));
    assert forall|w: u64| prices[w] == #[trigger] price_at(c, prices, w) by {
        if is_gate(c, w) {
            assert(mentions(c, w));
            assert(order.contains(w));
            let at = choose|at: int| 0 <= at < order.len() && order[at] == w;
            assert forall|j: int| at + 1 <= j < n implies order[j] != w by {}
            lemma_price_stays(c, order, at + 1, n, w);
            let ins = c[w].1@;
            if ins.len() >= 1 {
                lemma_input_is_priced(c, order, at, 0);
            }
            if ins.len() >= 2 {
                lemma_input_is_priced(c, order, at, 1);
            }
        } else {
            lemma_leaf_price(c, order, n, w);
        }
    }
    prices
}

/// The rewriting gives back only expressions with the truth table of the
/// one it was given.
pub open spec fn keeps_truth<F: Fn(&Expr) -> Expr>(simplify: F) -> bool {
    forall|e: Expr, s: Expr| #[trigger] simplify.ensures((&e,), s) ==> equivalent(e, s)
}

/// Rewrites a netlist towards cheaper gates. The cone of every output is
/// lifted to an expression and handed to `simplify`; what comes back is kept
/// if it is an expression that costs no more, and the expressions are lowered
/// to a new netlist, in which every output keeps its wire.
///
/// The new netlist is what the kept expressions lower to. It is closed and
/// acyclic, has every output, and every entry reads as many wires as the
/// arity of its kind. Whatever `simplify` does, no output costs more to
/// garble than before. If `simplify` keeps truth tables, every output
/// computes what it computed before.
///
/// With outputs to lift, the call fails with `CycleDetected` when the
/// netlist has a cycle, and with `ArityMismatch` when it has none but a gate
/// that reads another number of wires than its kind may. Otherwise it fails
/// only as the lowering of the kept expressions does.
pub fn optimize<F: Fn(&Expr) -> Expr>(circuit: Circuit, outputs: Vec<u64>, simplify: F) -> (r:
    Result<Circuit, ProtocolError>)
    requires
        forall|e: &Expr| #[trigger] simplify.requires((e,)),
    ensures
        outputs.len() > 0 ==> keys_increase(&circuit),
        outputs.len() > 0 && !acyclic(circuit@) ==> r == Err::<Circuit, ProtocolError>(
            ProtocolError::CycleDetected,
        ),
        outputs.len() > 0 && acyclic(circuit@) && ill_fitting(circuit@) ==> r == Err::<
            Circuit,
            ProtocolError,
        >(ProtocolError::ArityMismatch),
        outputs.len() == 0 || (acyclic(circuit@) && !ill_fitting(circuit@)) ==> exists|
            lifts: Seq<Expr>,
            cands: Seq<Expr>,
            bests: Seq<Expr>,
        | remade(&circuit, outputs@, simplify, r, lifts, cands, bests),
        r matches Ok(d) ==> {
            &&& acyclic(d@)
            &&& closed(d@)
            &&& well_sized(d@)
            &&& forall|i: int| 0 <= i < outputs.len() ==> d@.contains_key(#[trigger] outputs[i])
            &&& forall|i: int|
                0 <= i < outputs.len() ==> costs_no_more(circuit@, d@, #[trigger] outputs[i])
            &&& keeps_truth(simplify) ==> forall|i: int|
                0 <= i < outputs.len() ==> same_output(circuit@, d@, #[trigger] outputs[i])
        },
{
    let mut simplified: Vec<Expr> = Vec::new();
    let ghost mut lifts: Seq<Expr> = Seq::empty();
    let ghost mut cands: Seq<Expr> = Seq::empty();
    let mut i: usize = 0;
    while i < outputs.len()
        invariant
            i <= outputs.len(),
            simplified.len() == i,
            lifts.len() == i,
            cands.len() == i,
            forall|j: int|
                0 <= j < i ==> {
                    &&& (#[trigger] lifts[j]).nodes@ == cone_of(&circuit, outputs[j])
                    &&& lifted(circuit@, outputs[j], lifts[j])
                    &&& costs_as(circuit@, outputs[j], lifts[j])
                    &&& simplify.ensures((&lifts[j],), cands[j])
                    &&& simplified[j] == kept(lifts[j], cands[j])
                },
            forall|e: &Expr| #[trigger] simplify.requires((e,)),
            i > 0 ==> acyclic(circuit@) && !ill_fitting(circuit@) && keys_increase(&circuit),
            forall|j: int|
                0 <= j < i ==> {
                    &&& (#[trigger] simplified[j]).wf()
                    &&& keeps_truth(simplify) ==> equivalent(lifts[j], simplified[j])
                },
        decreases outputs.len() - i,
    {
        let expr = match build_expr(&circuit, outputs[i]) {
            Ok(e) => e,
            Err(e) => {
                return Err(e);
            },
        };
        let candidate = simplify(&expr);
        proof {
            lifts = lifts.push(expr);
            cands = cands.push(candidate);
        }
        let best = cheaper_of(expr, candidate);
        simplified.push(best);
        i += 1;
    }
    let lowered = lower_outputs(&simplified, &outputs);
    proof {
        assert(remade(&circuit, outputs@, simplify, lowered, lifts, cands, simplified@));
    }
    let new_circuit = match lowered {
        Ok(d) => d,
        Err(e) => {
            return Err(e);
        },
    };
    proof {
        let d = new_circuit@;
        assert forall|i: int| 0 <= i < outputs.len() implies costs_no_more(
            circuit@,
            d,
            #[trigger] outputs[i],
        ) by {
            lemma_first_place(outputs@, i);
            let at = first_place(outputs@, i);
            assert(costs_as(circuit@, outputs[at], lifts[at]));
            assert(costs_as(d, outputs[at], simplified@[at]));
            theorem_optimizer_costs_no_more(
                circuit@,
                d,
                outputs[at],
                lifts[at],
                simplified@[at],
            );
        }
        if keeps_truth(simplify) {
            assert forall|i: int| 0 <= i < outputs.len() implies same_output(
                circuit@,
                d,
                #[trigger] outputs[i],
            ) by {
                lemma_first_place(outputs@, i);
                let at = first_place(outputs@, i);
                assert(d.contains_key(outputs[at]));
                lemma_same_output(circuit@, d, outputs[at], lifts[at], simplified@[at]);
            }
        }
    }
    Ok(new_circuit)
}

/// The first place at which the wire at place `i` is listed.
spec fn first_place(outputs: Seq<u64>, i: int) -> int
    decreases i,
{
    if i <= 0 || first_at(outputs, i) {
        i
    } else {
        let j = choose|j: int| 0 <= j < i && outputs[j] == outputs[i];
        first_place(outputs, j)
    }
}

/// The first place of a wire is a place before or at its own, and no
/// earlier place lists the wire.
proof fn lemma_first_place(outputs: Seq<u64>, i: int)
    requires
        0 <= i < outputs.len(),
    ensures
        0 <= first_place(outputs, i) <= i,
        outputs[first_place(outputs, i)] == outputs[i],
        first_at(outputs, first_place(outputs, i)),
    decreases i,
{
    if i > 0 && !first_at(outputs, i) {
        let j = choose|j: int| 0 <= j < i && outputs[j] == outputs[i];
        lemma_first_place(outputs, j);
    }
}

/// A netlist that computes on a wire an expression with the truth table of
/// the one that was lifted for the wire, over leaves that are its input
/// wires, gives the wire the same bit as the netlist it was lifted from.
proof fn lemma_same_output(c: Netlist, d: Netlist, w: u64, e: Expr, f: Expr)
    requires
        lifted(c, w, e),
        equivalent(e, f),
        computes(d, w, f),
        forall|l: u64| #[trigger]
            names_wire(f.nodes@, l) ==> d.contains_key(l) && d[l].0 == GateType::INPUT,
    ensures
        same_output(c, d, w),
{
    assert forall|vals: Map<u64, bool>, other: Map<u64, bool>|
        #![trigger satisfies(c, vals), satisfies(d, other)]
        satisfies(c, vals) && satisfies(d, other) && (forall|l: u64|
            d.contains_key(l) && d[l].0 == GateType::INPUT ==> vals[l] == other[l]) implies other[w]
        == vals[w] by {
        assert forall|l: u64| f.has_leaf(l) implies vals[l] == other[l] by {
            lemma_leaf_is_named(f.nodes@, f.nodes@.len() - 1, l);
            assert(names_wire(f.nodes@, l));
        }
        theorem_optimizer_is_sound(c, d, w, e, f, vals, other);
    }
}

/// A leaf of a node is a wire that the nodes name.
proof fn lemma_leaf_is_named(nodes: Seq<Node>, i: int, l: u64)
    requires
        is_leaf_of(nodes, i, l),
    ensures
        names_wire(nodes, l),
    decreases i,
{
    match nodes[i] {
        Node::Wire(_) => {
            assert(nodes[i] == Node::Wire(l));
        },
        Node::Gate(kind, a, b) => {
            if operands(kind) >= 1 && a < i && is_leaf_of(nodes, a as int, l) {
                lemma_leaf_is_named(nodes, a as int, l);
            } else {
                lemma_leaf_is_named(nodes, b as int, l);
            }
        },
    }
}

} // verus!
