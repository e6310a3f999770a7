//! Boolean expressions over wires: the form in which the cone of an output
//! wire is handed to a rewriting engine and taken back from it, the rewrite
//! rules, and the cost that the rewriting is to bring down.
use crate::utils::GateType;
use vstd::prelude::*;

verus! {

/// One node of an expression. A gate names the nodes that it reads by their
/// place in the expression; a kind that reads fewer than two ignores the
/// rest.
#[derive(Debug, PartialEq, Eq, Structural, Clone, Copy)]
pub enum Node {
    Gate(GateType, usize, usize),
    Wire(u64),
}

/// An expression, as a list of nodes in which every gate stands after the
/// nodes it reads. The last node is the root.
#[derive(Debug, Clone)]
pub struct Expr {
    pub nodes: Vec<Node>,
}

/// The arity of a kind: how many wires a gate of this kind reads in a
/// netlist, and how many nodes in an expression. An input wire and a
/// constant read nothing, `NOT` and `CONST` read one, every other kind two.
/// The kinds `INPUT` and `CONST` do not occur in expressions: a wire is a
/// leaf, and a gate that passes its input on is its input.
pub open spec fn operands(kind: GateType) -> nat {
    match kind {
        GateType::INPUT | GateType::CONST_0 | GateType::CONST_1 => 0,
        GateType::NOT | GateType::CONST => 1,
        _ => 2,
    }
}

/// Whether a kind can head a node of an expression.
pub open spec fn is_operator(kind: GateType) -> bool {
    kind != GateType::INPUT && kind != GateType::CONST
}

/// The node at place `i` is a leaf, or a gate that reads only nodes before
/// it.
pub open spec fn node_ok(nodes: Seq<Node>, i: int) -> bool {
    match nodes[i] {
        Node::Wire(_) => true,
        Node::Gate(kind, a, b) => {
            &&& is_operator(kind)
            &&& operands(kind) >= 1 ==> a < i
            &&& operands(kind) >= 2 ==> b < i
        },
    }
}

/// Every node is a leaf or a gate that reads only nodes before it.
pub open spec fn all_ok(nodes: Seq<Node>) -> bool {
    forall|i: int| 0 <= i < nodes.len() ==> node_ok(nodes, i)
}

/// The bit of the node at place `i` when every wire has the bit that `vals`
/// gives it.
pub open spec fn node_value(nodes: Seq<Node>, i: int, vals: Map<u64, bool>) -> bool
    decreases i,
{
    if i < 0 || i >= nodes.len() {
        false
    } else {
        match nodes[i] {
            Node::Wire(w) => vals[w],
            Node::Gate(kind, a, b) => kind.output(
                if operands(kind) >= 1 && a < i {
                    node_value(nodes, a as int, vals)
                } else {
                    false
                },
                if operands(kind) >= 2 && b < i {
                    node_value(nodes, b as int, vals)
                } else {
                    false
                },
            ),
        }
    }
}

/// The bit of a node depends only on the nodes up to it.
pub proof fn lemma_value_of_prefix(nodes: Seq<Node>, longer: Seq<Node>, i: int, vals: Map<u64, bool>)
    requires
        0 <= i < nodes.len() <= longer.len(),
        forall|j: int| 0 <= j <= i ==> nodes[j] == longer[j],
    ensures
        node_value(nodes, i, vals) == node_value(longer, i, vals),
    decreases i,
{
    match nodes[i] {
        Node::Wire(_) => {},
        Node::Gate(kind, a, b) => {
            if operands(kind) >= 1 && a < i {
                lemma_value_of_prefix(nodes, longer, a as int, vals);
            }
            if operands(kind) >= 2 && b < i {
                lemma_value_of_prefix(nodes, longer, b as int, vals);
            }
        },
    }
}

/// The wire is a leaf of the node at place `i`.
pub open spec fn is_leaf_of(nodes: Seq<Node>, i: int, w: u64) -> bool
    decreases i,
{
    if i < 0 || i >= nodes.len() {
        false
    } else {
        match nodes[i] {
            Node::Wire(v) => v == w,
            Node::Gate(kind, a, b) => (operands(kind) >= 1 && a < i && is_leaf_of(
                nodes,
                a as int,
                w,
            )) || (operands(kind) >= 2 && b < i && is_leaf_of(nodes, b as int, w)),
        }
    }
}

/// The bit of a node depends only on the bits of its leaves.
pub proof fn lemma_value_of_leaves(
    nodes: Seq<Node>,
    i: int,
    vals: Map<u64, bool>,
    other: Map<u64, bool>,
)
    requires
        forall|w: u64| is_leaf_of(nodes, i, w) ==> vals[w] == other[w],
    ensures
        node_value(nodes, i, vals) == node_value(nodes, i, other),
    decreases i,
{
    if 0 <= i < nodes.len() {
        match nodes[i] {
            Node::Wire(w) => {
                assert(is_leaf_of(nodes, i, w));
            },
            Node::Gate(kind, a, b) => {
                if operands(kind) >= 1 && a < i {
                    assert forall|w: u64| is_leaf_of(nodes, a as int, w) implies vals[w]
                        == other[w] by {
                        assert(is_leaf_of(nodes, i, w));
                    }
                    lemma_value_of_leaves(nodes, a as int, vals, other);
                }
                if operands(kind) >= 2 && b < i {
                    assert forall|w: u64| is_leaf_of(nodes, b as int, w) implies vals[w]
                        == other[w] by {
                        assert(is_leaf_of(nodes, i, w));
                    }
                    lemma_value_of_leaves(nodes, b as int, vals, other);
                }
            },
        }
    }
}

/// The leaves of a node depend only on the nodes up to it.
pub proof fn lemma_leaves_of_prefix(nodes: Seq<Node>, longer: Seq<Node>, i: int, w: u64)
    requires
        0 <= i < nodes.len() <= longer.len(),
        forall|j: int| 0 <= j <= i ==> nodes[j] == longer[j],
    ensures
        is_leaf_of(nodes, i, w) == is_leaf_of(longer, i, w),
    decreases i,
{
    match nodes[i] {
        Node::Wire(_) => {},
        Node::Gate(kind, a, b) => {
            if operands(kind) >= 1 && a < i {
                lemma_leaves_of_prefix(nodes, longer, a as int, w);
            }
            if operands(kind) >= 2 && b < i {
                lemma_leaves_of_prefix(nodes, longer, b as int, w);
            }
        },
    }
}

/// What one more node at the end of an expression evaluates to.
proof fn lemma_value_of_last(nodes: Seq<Node>, node: Node, vals: Map<u64, bool>)
    requires
        node_ok(nodes.push(node), nodes.len() as int),
    ensures
        forall|j: int|
            0 <= j < nodes.len() ==> #[trigger] node_value(nodes.push(node), j, vals)
                == node_value(nodes, j, vals),
        node_value(nodes.push(node), nodes.len() as int, vals) == match node {
            Node::Wire(w) => vals[w],
            Node::Gate(kind, a, b) => kind.output(
                if operands(kind) >= 1 {
                    node_value(nodes, a as int, vals)
                } else {
                    false
                },
                if operands(kind) >= 2 {
                    node_value(nodes, b as int, vals)
                } else {
                    false
                },
            ),
        },
{
    let longer = nodes.push(node);
    let last = nodes.len() as int;
    assert forall|j: int| 0 <= j < nodes.len() implies #[trigger] node_value(longer, j, vals)
        == node_value(nodes, j, vals) by {
        lemma_value_of_prefix(nodes, longer, j, vals);
    }
    assert(longer[last] == node);
    assert(node_ok(longer, last));
    match node {
        Node::Wire(_) => {},
        Node::Gate(kind, a, b) => {
            if operands(kind) >= 1 {
                assert(node_value(longer, a as int, vals) == node_value(nodes, a as int, vals));
            }
            if operands(kind) >= 2 {
                assert(node_value(longer, b as int, vals) == node_value(nodes, b as int, vals));
            }
        },
    }
}

impl Expr {
    /// Every gate reads only nodes before it, and there is a root.
    pub open spec fn wf(self) -> bool {
        &&& self.nodes@.len() >= 1
        &&& all_ok(self.nodes@)
    }

    /// The bit of the expression: that of its root.
    pub open spec fn value(self, vals: Map<u64, bool>) -> bool {
        node_value(self.nodes@, self.nodes@.len() - 1, vals)
    }

    /// The wire is a leaf of the expression.
    pub open spec fn has_leaf(self, w: u64) -> bool {
        is_leaf_of(self.nodes@, self.nodes@.len() - 1, w)
    }

    /// Whether the expression is well formed.
    pub fn is_wf(&self) -> (r: bool)
        ensures
            r == self.wf(),
    {
        if self.nodes.len() == 0 {
            return false;
        }
        let mut i: usize = 0;
        while i < self.nodes.len()
            invariant
                i <= self.nodes.len(),
                forall|j: int| 0 <= j < i ==> node_ok(self.nodes@, j),
            decreases self.nodes.len() - i,
        {
            let ok = match self.nodes[i] {
                Node::Wire(_) => true,
                Node::Gate(kind, a, b) => {
                    let n = operand_count(kind);
                    !matches!(kind, GateType::INPUT | GateType::CONST) && (n < 1 || a < i) && (n
                        < 2 || b < i)
                },
            };
            if !ok {
                assert(!node_ok(self.nodes@, i as int));
                return false;
            }
            i += 1;
        }
        true
    }

    /// An expression without nodes, to be built up node by node.
    pub fn empty() -> (r: Self)
        ensures
            r.nodes@.len() == 0,
    {
        Expr { nodes: Vec::new() }
    }

    /// Adds a leaf and returns its place.
    pub fn wire(&mut self, w: u64) -> (r: usize)
        ensures
            final(self).nodes@ == old(self).nodes@.push(Node::Wire(w)),
            r == old(self).nodes@.len(),
            all_ok(old(self).nodes@) ==> all_ok(final(self).nodes@),
            forall|vals: Map<u64, bool>| #[trigger]
                node_value(final(self).nodes@, r as int, vals) == vals[w],
            forall|j: int, vals: Map<u64, bool>|
                0 <= j < r ==> #[trigger] node_value(final(self).nodes@, j, vals) == node_value(
                    old(self).nodes@,
                    j,
                    vals,
                ),
            forall|l: u64| #[trigger] is_leaf_of(final(self).nodes@, r as int, l) <==> l == w,
            forall|j: int, l: u64|
                0 <= j < r ==> #[trigger] is_leaf_of(final(self).nodes@, j, l) == is_leaf_of(
                    old(self).nodes@,
                    j,
                    l,
                ),
    {
        let ghost before = self.nodes@;
        self.nodes.push(Node::Wire(w));
        proof {
            assert(all_ok(before) ==> all_ok(self.nodes@)) by {
                if all_ok(before) {
                    assert forall|i: int| 0 <= i < self.nodes@.len() implies node_ok(
                        self.nodes@,
                        i,
                    ) by {
                        if i < before.len() {
                            assert(node_ok(before, i));
                        }
                    }
                }
            }
            assert forall|vals: Map<u64, bool>| #[trigger]
                node_value(self.nodes@, before.len() as int, vals) == vals[w] by {
                lemma_value_of_last(before, Node::Wire(w), vals);
            }
            assert forall|j: int, vals: Map<u64, bool>| 0 <= j < before.len() implies #[trigger]
                node_value(self.nodes@, j, vals) == node_value(before, j, vals) by {
                lemma_value_of_last(before, Node::Wire(w), vals);
            }
            assert forall|j: int, l: u64| 0 <= j < before.len() implies #[trigger] is_leaf_of(
                self.nodes@,
                j,
                l,
            ) == is_leaf_of(before, j, l) by {
                lemma_leaves_of_prefix(before, self.nodes@, j, l);
            }
        }
        self.nodes.len() - 1
    }

    /// Adds a gate that reads the nodes at `a` and `b` and returns its place.
    /// The expression stays well formed if the kind can head a node and the
    /// nodes that it reads are there.
    pub fn gate(&mut self, kind: GateType, a: usize, b: usize) -> (r: usize)
        ensures
            final(self).nodes@ == old(self).nodes@.push(Node::Gate(kind, a, b)),
            r == old(self).nodes@.len(),
            all_ok(old(self).nodes@) && node_ok(final(self).nodes@, r as int) ==> all_ok(
                final(self).nodes@,
            ),
            node_ok(final(self).nodes@, r as int) <==> is_operator(kind) && (operands(kind) >= 1
                ==> a < r) && (operands(kind) >= 2 ==> b < r),
            node_ok(final(self).nodes@, r as int) ==> forall|vals: Map<u64, bool>| #[trigger]
                node_value(final(self).nodes@, r as int, vals) == kind.output(
                    if operands(kind) >= 1 {
                        node_value(old(self).nodes@, a as int, vals)
                    } else {
                        false
                    },
                    if operands(kind) >= 2 {
                        node_value(old(self).nodes@, b as int, vals)
                    } else {
                        false
                    },
                ),
            forall|j: int, vals: Map<u64, bool>|
                0 <= j < r ==> #[trigger] node_value(final(self).nodes@, j, vals) == node_value(
                    old(self).nodes@,
                    j,
                    vals,
                ),
            node_ok(final(self).nodes@, r as int) ==> forall|l: u64| #[trigger]
                is_leaf_of(final(self).nodes@, r as int, l) <==> (operands(kind) >= 1
                    && is_leaf_of(old(self).nodes@, a as int, l)) || (operands(kind) >= 2
                    && is_leaf_of(old(self).nodes@, b as int, l)),
            forall|j: int, l: u64|
                0 <= j < r ==> #[trigger] is_leaf_of(final(self).nodes@, j, l) == is_leaf_of(
                    old(self).nodes@,
                    j,
                    l,
                ),
    {
        let ghost before = self.nodes@;
        self.nodes.push(Node::Gate(kind, a, b));
        proof {
            assert(self.nodes@[before.len() as int] == Node::Gate(kind, a, b));
            assert(all_ok(before) && node_ok(self.nodes@, before.len() as int) ==> all_ok(
                self.nodes@,
            )) by {
                if all_ok(before) && node_ok(self.nodes@, before.len() as int) {
                    assert forall|i: int| 0 <= i < self.nodes@.len() implies node_ok(
                        self.nodes@,
                        i,
                    ) by {
                        if i < before.len() {
                            assert(node_ok(before, i));
                        }
                    }
                }
            }
            if node_ok(self.nodes@, before.len() as int) {
                assert forall|vals: Map<u64, bool>| #[trigger]
                    node_value(self.nodes@, before.len() as int, vals) == kind.output(
                        if operands(kind) >= 1 {
                            node_value(before, a as int, vals)
                        } else {
                            false
                        },
                        if operands(kind) >= 2 {
                            node_value(before, b as int, vals)
                        } else {
                            false
                        },
                    ) by {
                    lemma_value_of_last(before, Node::Gate(kind, a, b), vals);
                }
            }
            assert forall|j: int, vals: Map<u64, bool>| 0 <= j < before.len() implies #[trigger]
                node_value(self.nodes@, j, vals) == node_value(before, j, vals) by {
                lemma_value_of_prefix(before, self.nodes@, j, vals);
            }
            assert forall|j: int, l: u64| 0 <= j < before.len() implies #[trigger] is_leaf_of(
                self.nodes@,
                j,
                l,
            ) == is_leaf_of(before, j, l) by {
                lemma_leaves_of_prefix(before, self.nodes@, j, l);
            }
            if node_ok(self.nodes@, before.len() as int) {
                assert forall|l: u64| #[trigger]
                    is_leaf_of(self.nodes@, before.len() as int, l) <==> (operands(kind) >= 1
                        && is_leaf_of(before, a as int, l)) || (operands(kind) >= 2
                        && is_leaf_of(before, b as int, l)) by {
                    if operands(kind) >= 1 {
                        lemma_leaves_of_prefix(before, self.nodes@, a as int, l);
                    }
                    if operands(kind) >= 2 {
                        lemma_leaves_of_prefix(before, self.nodes@, b as int, l);
                    }
                }
            }
        }
        self.nodes.len() - 1
    }
}

/// Executable form of [`operands`].
pub fn operand_count(kind: GateType) -> (n: usize)
    ensures
        n == operands(kind),
{
    match kind {
        GateType::INPUT | GateType::CONST_0 | GateType::CONST_1 => 0,
        GateType::NOT | GateType::CONST => 1,
        _ => 2,
    }
}

/// Two expressions have the same bit under every assignment.
pub open spec fn equivalent(a: Expr, b: Expr) -> bool {
    forall|vals: Map<u64, bool>| #[trigger] a.value(vals) == b.value(vals)
}

/// A rewrite rule: wherever the left side fits, the right side may stand.
/// The leaves of the two sides are the variables of the rule.
#[derive(Debug)]
pub struct Rule {
    pub name: String,
    pub lhs: Expr,
    pub rhs: Expr,
}

impl Rule {
    /// The rule keeps the truth table: both sides are expressions, and they
    /// have the same bit whatever bits the variables have.
    pub open spec fn sound(self) -> bool {
        self.lhs.wf() && self.rhs.wf() && equivalent(self.lhs, self.rhs)
    }

    /// The name and the two sides, node by node.
    pub open spec fn shape(self) -> (Seq<char>, Seq<Node>, Seq<Node>) {
        (self.name@, self.lhs.nodes@, self.rhs.nodes@)
    }
}

/// The name, the left side and the right side of the rule at place `i` of
/// the rules, the sides node by node.
pub open spec fn rule_at(i: int) -> (Seq<char>, Seq<Node>, Seq<Node>) {
    if i == 0 {
        ("simplify-and"@, seq![Node::Wire(0), Node::Wire(0), Node::Gate(GateType::AND, 0, 1)], seq![Node::Wire(0)])
    } else if i == 1 {
        ("simplify-or"@, seq![Node::Wire(0), Node::Wire(1), Node::Gate(GateType::NOT, 1, 1), Node::Gate(GateType::AND, 0, 2), Node::Wire(1), Node::Wire(0), Node::Gate(GateType::NOT, 5, 5), Node::Gate(GateType::AND, 4, 6), Node::Gate(GateType::OR, 3, 7)], seq![Node::Wire(0), Node::Wire(1), Node::Gate(GateType::XOR, 0, 1)])
    } else if i == 2 {
        ("double-negation-xor"@, seq![Node::Wire(0), Node::Gate(GateType::NOT, 0, 0), Node::Gate(GateType::NOT, 1, 1), Node::Wire(1), Node::Gate(GateType::XOR, 2, 3)], seq![Node::Wire(0), Node::Wire(1), Node::Gate(GateType::XOR, 0, 1)])
    } else if i == 3 {
        ("optimize-xor-combinations"@, seq![Node::Wire(0), Node::Wire(1), Node::Gate(GateType::XOR, 0, 1), Node::Wire(1), Node::Gate(GateType::XOR, 2, 3)], seq![Node::Wire(0)])
    } else if i == 4 {
        ("eliminate-redundant-xor"@, seq![Node::Wire(0), Node::Wire(0), Node::Wire(1), Node::Gate(GateType::XOR, 1, 2), Node::Gate(GateType::XOR, 0, 3)], seq![Node::Wire(1)])
    } else if i == 5 {
        ("nand-to-not"@, seq![Node::Wire(0), Node::Wire(0), Node::Gate(GateType::NAND, 0, 1)], seq![Node::Wire(0), Node::Gate(GateType::NOT, 0, 0)])
    } else if i == 6 {
        ("nand-to-and"@, seq![Node::Wire(0), Node::Wire(1), Node::Gate(GateType::NAND, 0, 1), Node::Wire(0), Node::Wire(1), Node::Gate(GateType::NAND, 3, 4), Node::Gate(GateType::NAND, 2, 5)], seq![Node::Wire(0), Node::Wire(1), Node::Gate(GateType::AND, 0, 1)])
    } else if i == 7 {
        ("nand-to-or"@, seq![Node::Wire(0), Node::Wire(0), Node::Gate(GateType::NAND, 0, 1), Node::Wire(1), Node::Wire(1), Node::Gate(GateType::NAND, 3, 4), Node::Gate(GateType::NAND, 2, 5)], seq![Node::Wire(0), Node::Wire(1), Node::Gate(GateType::OR, 0, 1)])
    } else if i == 8 {
        ("de-morgan-nand-to-or"@, seq![Node::Wire(0), Node::Wire(1), Node::Gate(GateType::NAND, 0, 1)], seq![Node::Wire(0), Node::Wire(1), Node::Gate(GateType::AND, 0, 1), Node::Gate(GateType::NOT, 2, 2)])
    } else if i == 9 {
        ("double_negative"@, seq![Node::Wire(0), Node::Gate(GateType::NOT, 0, 0), Node::Gate(GateType::NOT, 1, 1)], seq![Node::Wire(0)])
    } else if i == 10 {
        ("idempotent_or"@, seq![Node::Wire(0), Node::Wire(0), Node::Gate(GateType::OR, 0, 1)], seq![Node::Wire(0)])
    } else if i == 11 {
        ("absorption_and"@, seq![Node::Wire(0), Node::Wire(0), Node::Wire(1), Node::Gate(GateType::OR, 1, 2), Node::Gate(GateType::AND, 0, 3)], seq![Node::Wire(0)])
    } else if i == 12 {
        ("absorption_or"@, seq![Node::Wire(0), Node::Wire(0), Node::Wire(1), Node::Gate(GateType::AND, 1, 2), Node::Gate(GateType::OR, 0, 3)], seq![Node::Wire(0)])
    } else if i == 13 {
        ("or-xor-1"@, seq![Node::Wire(0), Node::Wire(0), Node::Wire(1), Node::Gate(GateType::XOR, 1, 2), Node::Gate(GateType::OR, 0, 3)], seq![Node::Wire(0), Node::Wire(1), Node::Gate(GateType::OR, 0, 1)])
    } else if i == 14 {
        ("xor_conv"@, seq![Node::Wire(0), Node::Wire(1), Node::Gate(GateType::OR, 0, 1), Node::Wire(0), Node::Wire(1), Node::Gate(GateType::AND, 3, 4), Node::Gate(GateType::NOT, 5, 5), Node::Gate(GateType::AND, 2, 6)], seq![Node::Wire(0), Node::Wire(1), Node::Gate(GateType::XOR, 0, 1)])
    } else if i == 15 {
        ("xor_conv2"@, seq![Node::Wire(0), Node::Gate(GateType::NOT, 0, 0), Node::Wire(1), Node::Gate(GateType::AND, 1, 2), Node::Wire(0), Node::Wire(1), Node::Gate(GateType::NOT, 5, 5), Node::Gate(GateType::AND, 4, 6), Node::Gate(GateType::OR, 3, 7)], seq![Node::Wire(0), Node::Wire(1), Node::Gate(GateType::XOR, 0, 1)])
    } else if i == 16 {
        ("double_negation_to_xor"@, seq![Node::Wire(0), Node::Wire(1), Node::Gate(GateType::XOR, 0, 1), Node::Gate(GateType::NOT, 2, 2), Node::Gate(GateType::NOT, 3, 3)], seq![Node::Wire(0), Node::Wire(1), Node::Gate(GateType::XOR, 0, 1)])
    } else if i == 17 {
        ("xor-with-negation"@, seq![Node::Wire(0), Node::Wire(1), Node::Gate(GateType::NOT, 1, 1), Node::Gate(GateType::XOR, 0, 2)], seq![Node::Wire(0), Node::Wire(1), Node::Gate(GateType::XOR, 0, 1), Node::Gate(GateType::NOT, 2, 2)])
    } else if i == 18 {
        ("nor-to-not-or"@, seq![Node::Wire(0), Node::Wire(1), Node::Gate(GateType::NOR, 0, 1)], seq![Node::Wire(0), Node::Wire(1), Node::Gate(GateType::OR, 0, 1), Node::Gate(GateType::NOT, 2, 2)])
    } else if i == 19 {
        ("simplify-nor"@, seq![Node::Wire(0), Node::Wire(0), Node::Gate(GateType::NOR, 0, 1)], seq![Node::Wire(0), Node::Gate(GateType::NOT, 0, 0)])
    } else if i == 20 {
        ("xnor-to-and-or"@, seq![Node::Wire(0), Node::Wire(1), Node::Gate(GateType::XNOR, 0, 1)], seq![Node::Wire(0), Node::Wire(1), Node::Gate(GateType::AND, 0, 1), Node::Wire(0), Node::Gate(GateType::NOT, 3, 3), Node::Wire(1), Node::Gate(GateType::NOT, 5, 5), Node::Gate(GateType::AND, 4, 6), Node::Gate(GateType::OR, 2, 7)])
    } else if i == 21 {
        ("merge-consecutive-xor"@, seq![Node::Wire(0), Node::Wire(1), Node::Gate(GateType::XOR, 0, 1), Node::Wire(2), Node::Gate(GateType::XOR, 2, 3)], seq![Node::Wire(0), Node::Wire(1), Node::Wire(2), Node::Gate(GateType::XOR, 1, 2), Node::Gate(GateType::XOR, 0, 3)])
    } else if i == 22 {
        ("de-morgan-and"@, seq![Node::Wire(0), Node::Wire(1), Node::Gate(GateType::AND, 0, 1), Node::Gate(GateType::NOT, 2, 2)], seq![Node::Wire(0), Node::Gate(GateType::NOT, 0, 0), Node::Wire(1), Node::Gate(GateType::NOT, 2, 2), Node::Gate(GateType::OR, 1, 3)])
    } else if i == 23 {
        ("de-morgan-or"@, seq![Node::Wire(0), Node::Wire(1), Node::Gate(GateType::OR, 0, 1), Node::Gate(GateType::NOT, 2, 2)], seq![Node::Wire(0), Node::Gate(GateType::NOT, 0, 0), Node::Wire(1), Node::Gate(GateType::NOT, 2, 2), Node::Gate(GateType::AND, 1, 3)])
    } else if i == 24 {
        ("and-with-one"@, seq![Node::Wire(0), Node::Gate(GateType::CONST_1, 0, 0), Node::Gate(GateType::AND, 0, 1)], seq![Node::Wire(0)])
    } else if i == 25 {
        ("and-with-zero"@, seq![Node::Wire(0), Node::Gate(GateType::CONST_0, 0, 0), Node::Gate(GateType::AND, 0, 1)], seq![Node::Gate(GateType::CONST_0, 0, 0)])
    } else if i == 26 {
        ("or-with-zero"@, seq![Node::Wire(0), Node::Gate(GateType::CONST_0, 0, 0), Node::Gate(GateType::OR, 0, 1)], seq![Node::Wire(0)])
    } else if i == 27 {
        ("or-with-one"@, seq![Node::Wire(0), Node::Gate(GateType::CONST_1, 0, 0), Node::Gate(GateType::OR, 0, 1)], seq![Node::Gate(GateType::CONST_1, 0, 0)])
    } else if i == 28 {
        ("xor-with-zero"@, seq![Node::Wire(0), Node::Gate(GateType::CONST_0, 0, 0), Node::Gate(GateType::XOR, 0, 1)], seq![Node::Wire(0)])
    } else if i == 29 {
        ("xor-with-itself"@, seq![Node::Wire(0), Node::Wire(0), Node::Gate(GateType::XOR, 0, 1)], seq![Node::Gate(GateType::CONST_0, 0, 0)])
    } else if i == 30 {
        ("not-to-xor"@, seq![Node::Wire(0), Node::Gate(GateType::NOT, 0, 0)], seq![Node::Wire(0), Node::Gate(GateType::CONST_1, 0, 0), Node::Gate(GateType::XOR, 0, 1)])
    } else if i == 31 {
        ("andnot-to-and"@, seq![Node::Wire(0), Node::Wire(1), Node::Gate(GateType::ANDNOT, 0, 1)], seq![Node::Wire(0), Node::Wire(1), Node::Gate(GateType::NOT, 1, 1), Node::Gate(GateType::AND, 0, 2)])
    } else if i == 32 {
        ("ornot-to-or"@, seq![Node::Wire(0), Node::Wire(1), Node::Gate(GateType::ORNOT, 0, 1)], seq![Node::Wire(0), Node::Wire(1), Node::Gate(GateType::NOT, 1, 1), Node::Gate(GateType::OR, 0, 2)])
    } else {
        (Seq::empty(), Seq::empty(), Seq::empty())
    }
}

/// A rule of two sides that have the same truth table.
fn rule(name: &str, lhs: Expr, rhs: Expr) -> (r: Rule)
    requires
        lhs.wf(),
        rhs.wf(),
        equivalent(lhs, rhs),
    ensures
        r.sound(),
        r.shape() == (name@, lhs.nodes@, rhs.nodes@),
{
    Rule { name: name.to_owned(), lhs, rhs }
}

/// `(and a a)` becomes `a`.
fn rule_simplify_and() -> (r: Rule)
    ensures
        r.sound(),
        r.shape() == rule_at(0),
{
    let mut lhs = Expr::empty();
    let n0 = lhs.wire(0);
    let n1 = lhs.wire(0);
    let n2 = lhs.gate(GateType::AND, n0, n1);
    let mut rhs = Expr::empty();
    let n3 = rhs.wire(0);
    assert(equivalent(lhs, rhs));
    rule("simplify-and", lhs, rhs)
}

/// `(or (and a (not b)) (and b (not a)))` becomes `(xor a b)`.
fn rule_simplify_or() -> (r: Rule)
    ensures
        r.sound(),
        r.shape() == rule_at(1),
{
    let mut lhs = Expr::empty();
    let n0 = lhs.wire(0);
    let n1 = lhs.wire(1);
    let n2 = lhs.gate(GateType::NOT, n1, n1);
    let n3 = lhs.gate(GateType::AND, n0, n2);
    let n4 = lhs.wire(1);
    let n5 = lhs.wire(0);
    let n6 = lhs.gate(GateType::NOT, n5, n5);
    let n7 = lhs.gate(GateType::AND, n4, n6);
    let n8 = lhs.gate(GateType::OR, n3, n7);
    let mut rhs = Expr::empty();
    let n9 = rhs.wire(0);
    let n10 = rhs.wire(1);
    let n11 = rhs.gate(GateType::XOR, n9, n10);
    assert(equivalent(lhs, rhs));
    rule("simplify-or", lhs, rhs)
}

/// `(xor (not (not a)) b)` becomes `(xor a b)`.
fn rule_double_negation_xor() -> (r: Rule)
    ensures
        r.sound(),
        r.shape() == rule_at(2),
{
    let mut lhs = Expr::empty();
    let n0 = lhs.wire(0);
    let n1 = lhs.gate(GateType::NOT, n0, n0);
    let n2 = lhs.gate(GateType::NOT, n1, n1);
    let n3 = lhs.wire(1);
    let n4 = lhs.gate(GateType::XOR, n2, n3);
    let mut rhs = Expr::empty();
    let n5 = rhs.wire(0);
    let n6 = rhs.wire(1);
    let n7 = rhs.gate(GateType::XOR, n5, n6);
    assert(equivalent(lhs, rhs));
    rule("double-negation-xor", lhs, rhs)
}

/// `(xor (xor a b) b)` becomes `a`.
fn rule_optimize_xor_combinations() -> (r: Rule)
    ensures
        r.sound(),
        r.shape() == rule_at(3),
{
    let mut lhs = Expr::empty();
    let n0 = lhs.wire(0);
    let n1 = lhs.wire(1);
    let n2 = lhs.gate(GateType::XOR, n0, n1);
    let n3 = lhs.wire(1);
    let n4 = lhs.gate(GateType::XOR, n2, n3);
    let mut rhs = Expr::empty();
    let n5 = rhs.wire(0);
    assert(equivalent(lhs, rhs));
    rule("optimize-xor-combinations", lhs, rhs)
}

/// `(xor a (xor a b))` becomes `b`.
fn rule_eliminate_redundant_xor() -> (r: Rule)
    ensures
        r.sound(),
        r.shape() == rule_at(4),
{
    let mut lhs = Expr::empty();
    let n0 = lhs.wire(0);
    let n1 = lhs.wire(0);
    let n2 = lhs.wire(1);
    let n3 = lhs.gate(GateType::XOR, n1, n2);
    let n4 = lhs.gate(GateType::XOR, n0, n3);
    let mut rhs = Expr::empty();
    let n5 = rhs.wire(1);
    assert(equivalent(lhs, rhs));
    rule("eliminate-redundant-xor", lhs, rhs)
}

/// `(nand a a)` becomes `(not a)`.
fn rule_nand_to_not() -> (r: Rule)
    ensures
        r.sound(),
        r.shape() == rule_at(5),
{
    let mut lhs = Expr::empty();
    let n0 = lhs.wire(0);
    let n1 = lhs.wire(0);
    let n2 = lhs.gate(GateType::NAND, n0, n1);
    let mut rhs = Expr::empty();
    let n3 = rhs.wire(0);
    let n4 = rhs.gate(GateType::NOT, n3, n3);
    assert(equivalent(lhs, rhs));
    rule("nand-to-not", lhs, rhs)
}

/// `(nand (nand a b) (nand a b))` becomes `(and a b)`.
fn rule_nand_to_and() -> (r: Rule)
    ensures
        r.sound(),
        r.shape() == rule_at(6),
{
    let mut lhs = Expr::empty();
    let n0 = lhs.wire(0);
    let n1 = lhs.wire(1);
    let n2 = lhs.gate(GateType::NAND, n0, n1);
    let n3 = lhs.wire(0);
    let n4 = lhs.wire(1);
    let n5 = lhs.gate(GateType::NAND, n3, n4);
    let n6 = lhs.gate(GateType::NAND, n2, n5);
    let mut rhs = Expr::empty();
    let n7 = rhs.wire(0);
    let n8 = rhs.wire(1);
    let n9 = rhs.gate(GateType::AND, n7, n8);
    assert(equivalent(lhs, rhs));
    rule("nand-to-and", lhs, rhs)
}

/// `(nand (nand a a) (nand b b))` becomes `(or a b)`.
fn rule_nand_to_or() -> (r: Rule)
    ensures
        r.sound(),
        r.shape() == rule_at(7),
{
    let mut lhs = Expr::empty();
    let n0 = lhs.wire(0);
    let n1 = lhs.wire(0);
    let n2 = lhs.gate(GateType::NAND, n0, n1);
    let n3 = lhs.wire(1);
    let n4 = lhs.wire(1);
    let n5 = lhs.gate(GateType::NAND, n3, n4);
    let n6 = lhs.gate(GateType::NAND, n2, n5);
    let mut rhs = Expr::empty();
    let n7 = rhs.wire(0);
    let n8 = rhs.wire(1);
    let n9 = rhs.gate(GateType::OR, n7, n8);
    assert(equivalent(lhs, rhs));
    rule("nand-to-or", lhs, rhs)
}

/// `(nand a b)` becomes `(not (and a b))`.
fn rule_de_morgan_nand_to_or() -> (r: Rule)
    ensures
        r.sound(),
        r.shape() == rule_at(8),
{
    let mut lhs = Expr::empty();
    let n0 = lhs.wire(0);
    let n1 = lhs.wire(1);
    let n2 = lhs.gate(GateType::NAND, n0, n1);
    let mut rhs = Expr::empty();
    let n3 = rhs.wire(0);
    let n4 = rhs.wire(1);
    let n5 = rhs.gate(GateType::AND, n3, n4);
    let n6 = rhs.gate(GateType::NOT, n5, n5);
    assert(equivalent(lhs, rhs));
    rule("de-morgan-nand-to-or", lhs, rhs)
}

/// `(not (not a))` becomes `a`.
fn rule_double_negative() -> (r: Rule)
    ensures
        r.sound(),
        r.shape() == rule_at(9),
{
    let mut lhs = Expr::empty();
    let n0 = lhs.wire(0);
    let n1 = lhs.gate(GateType::NOT, n0, n0);
    let n2 = lhs.gate(GateType::NOT, n1, n1);
    let mut rhs = Expr::empty();
    let n3 = rhs.wire(0);
    assert(equivalent(lhs, rhs));
    rule("double_negative", lhs, rhs)
}

/// `(or a a)` becomes `a`.
fn rule_idempotent_or() -> (r: Rule)
    ensures
        r.sound(),
        r.shape() == rule_at(10),
{
    let mut lhs = Expr::empty();
    let n0 = lhs.wire(0);
    let n1 = lhs.wire(0);
    let n2 = lhs.gate(GateType::OR, n0, n1);
    let mut rhs = Expr::empty();
    let n3 = rhs.wire(0);
    assert(equivalent(lhs, rhs));
    rule("idempotent_or", lhs, rhs)
}

/// `(and a (or a b))` becomes `a`.
fn rule_absorption_and() -> (r: Rule)
    ensures
        r.sound(),
        r.shape() == rule_at(11),
{
    let mut lhs = Expr::empty();
    let n0 = lhs.wire(0);
    let n1 = lhs.wire(0);
    let n2 = lhs.wire(1);
    let n3 = lhs.gate(GateType::OR, n1, n2);
    let n4 = lhs.gate(GateType::AND, n0, n3);
    let mut rhs = Expr::empty();
    let n5 = rhs.wire(0);
    assert(equivalent(lhs, rhs));
    rule("absorption_and", lhs, rhs)
}

/// `(or a (and a b))` becomes `a`.
fn rule_absorption_or() -> (r: Rule)
    ensures
        r.sound(),
        r.shape() == rule_at(12),
{
    let mut lhs = Expr::empty();
    let n0 = lhs.wire(0);
    let n1 = lhs.wire(0);
    let n2 = lhs.wire(1);
    let n3 = lhs.gate(GateType::AND, n1, n2);
    let n4 = lhs.gate(GateType::OR, n0, n3);
    let mut rhs = Expr::empty();
    let n5 = rhs.wire(0);
    assert(equivalent(lhs, rhs));
    rule("absorption_or", lhs, rhs)
}

/// `(or a (xor a b))` becomes `(or a b)`.
fn rule_or_xor_1() -> (r: Rule)
    ensures
        r.sound(),
        r.shape() == rule_at(13),
{
    let mut lhs = Expr::empty();
    let n0 = lhs.wire(0);
    let n1 = lhs.wire(0);
    let n2 = lhs.wire(1);
    let n3 = lhs.gate(GateType::XOR, n1, n2);
    let n4 = lhs.gate(GateType::OR, n0, n3);
    let mut rhs = Expr::empty();
    let n5 = rhs.wire(0);
    let n6 = rhs.wire(1);
    let n7 = rhs.gate(GateType::OR, n5, n6);
    assert(equivalent(lhs, rhs));
    rule("or-xor-1", lhs, rhs)
}

/// `(and (or a b) (not (and a b)))` becomes `(xor a b)`.
fn rule_xor_conv() -> (r: Rule)
    ensures
        r.sound(),
        r.shape() == rule_at(14),
{
    let mut lhs = Expr::empty();
    let n0 = lhs.wire(0);
    let n1 = lhs.wire(1);
    let n2 = lhs.gate(GateType::OR, n0, n1);
    let n3 = lhs.wire(0);
    let n4 = lhs.wire(1);
    let n5 = lhs.gate(GateType::AND, n3, n4);
    let n6 = lhs.gate(GateType::NOT, n5, n5);
    let n7 = lhs.gate(GateType::AND, n2, n6);
    let mut rhs = Expr::empty();
    let n8 = rhs.wire(0);
    let n9 = rhs.wire(1);
    let n10 = rhs.gate(GateType::XOR, n8, n9);
    assert(equivalent(lhs, rhs));
    rule("xor_conv", lhs, rhs)
}

/// `(or (and (not a) b) (and a (not b)))` becomes `(xor a b)`.
fn rule_xor_conv2() -> (r: Rule)
    ensures
        r.sound(),
        r.shape() == rule_at(15),
{
    let mut lhs = Expr::empty();
    let n0 = lhs.wire(0);
    let n1 = lhs.gate(GateType::NOT, n0, n0);
    let n2 = lhs.wire(1);
    let n3 = lhs.gate(GateType::AND, n1, n2);
    let n4 = lhs.wire(0);
    let n5 = lhs.wire(1);
    let n6 = lhs.gate(GateType::NOT, n5, n5);
    let n7 = lhs.gate(GateType::AND, n4, n6);
    let n8 = lhs.gate(GateType::OR, n3, n7);
    let mut rhs = Expr::empty();
    let n9 = rhs.wire(0);
    let n10 = rhs.wire(1);
    let n11 = rhs.gate(GateType::XOR, n9, n10);
    assert(equivalent(lhs, rhs));
    rule("xor_conv2", lhs, rhs)
}

/// `(not (not (xor a b)))` becomes `(xor a b)`.
fn rule_double_negation_to_xor() -> (r: Rule)
    ensures
        r.sound(),
        r.shape() == rule_at(16),
{
    let mut lhs = Expr::empty();
    let n0 = lhs.wire(0);
    let n1 = lhs.wire(1);
    let n2 = lhs.gate(GateType::XOR, n0, n1);
    let n3 = lhs.gate(GateType::NOT, n2, n2);
    let n4 = lhs.gate(GateType::NOT, n3, n3);
    let mut rhs = Expr::empty();
    let n5 = rhs.wire(0);
    let n6 = rhs.wire(1);
    let n7 = rhs.gate(GateType::XOR, n5, n6);
    assert(equivalent(lhs, rhs));
    rule("double_negation_to_xor", lhs, rhs)
}

/// `(xor a (not b))` becomes `(not (xor a b))`.
fn rule_xor_with_negation() -> (r: Rule)
    ensures
        r.sound(),
        r.shape() == rule_at(17),
{
    let mut lhs = Expr::empty();
    let n0 = lhs.wire(0);
    let n1 = lhs.wire(1);
    let n2 = lhs.gate(GateType::NOT, n1, n1);
    let n3 = lhs.gate(GateType::XOR, n0, n2);
    let mut rhs = Expr::empty();
    let n4 = rhs.wire(0);
    let n5 = rhs.wire(1);
    let n6 = rhs.gate(GateType::XOR, n4, n5);
    let n7 = rhs.gate(GateType::NOT, n6, n6);
    assert(equivalent(lhs, rhs));
    rule("xor-with-negation", lhs, rhs)
}

/// `(nor a b)` becomes `(not (or a b))`.
fn rule_nor_to_not_or() -> (r: Rule)
    ensures
        r.sound(),
        r.shape() == rule_at(18),
{
    let mut lhs = Expr::empty();
    let n0 = lhs.wire(0);
    let n1 = lhs.wire(1);
    let n2 = lhs.gate(GateType::NOR, n0, n1);
    let mut rhs = Expr::empty();
    let n3 = rhs.wire(0);
    let n4 = rhs.wire(1);
    let n5 = rhs.gate(GateType::OR, n3, n4);
    let n6 = rhs.gate(GateType::NOT, n5, n5);
    assert(equivalent(lhs, rhs));
    rule("nor-to-not-or", lhs, rhs)
}

/// `(nor a a)` becomes `(not a)`.
fn rule_simplify_nor() -> (r: Rule)
    ensures
        r.sound(),
        r.shape() == rule_at(19),
{
    let mut lhs = Expr::empty();
    let n0 = lhs.wire(0);
    let n1 = lhs.wire(0);
    let n2 = lhs.gate(GateType::NOR, n0, n1);
    let mut rhs = Expr::empty();
    let n3 = rhs.wire(0);
    let n4 = rhs.gate(GateType::NOT, n3, n3);
    assert(equivalent(lhs, rhs));
    rule("simplify-nor", lhs, rhs)
}

/// `(xnor a b)` becomes `(or (and a b) (and (not a) (not b)))`.
fn rule_xnor_to_and_or() -> (r: Rule)
    ensures
        r.sound(),
        r.shape() == rule_at(20),
{
    let mut lhs = Expr::empty();
    let n0 = lhs.wire(0);
    let n1 = lhs.wire(1);
    let n2 = lhs.gate(GateType::XNOR, n0, n1);
    let mut rhs = Expr::empty();
    let n3 = rhs.wire(0);
    let n4 = rhs.wire(1);
    let n5 = rhs.gate(GateType::AND, n3, n4);
    let n6 = rhs.wire(0);
    let n7 = rhs.gate(GateType::NOT, n6, n6);
    let n8 = rhs.wire(1);
    let n9 = rhs.gate(GateType::NOT, n8, n8);
    let n10 = rhs.gate(GateType::AND, n7, n9);
    let n11 = rhs.gate(GateType::OR, n5, n10);
    assert(equivalent(lhs, rhs));
    rule("xnor-to-and-or", lhs, rhs)
}

/// `(xor (xor a b) c)` becomes `(xor a (xor b c))`.
fn rule_merge_consecutive_xor() -> (r: Rule)
    ensures
        r.sound(),
        r.shape() == rule_at(21),
{
    let mut lhs = Expr::empty();
    let n0 = lhs.wire(0);
    let n1 = lhs.wire(1);
    let n2 = lhs.gate(GateType::XOR, n0, n1);
    let n3 = lhs.wire(2);
    let n4 = lhs.gate(GateType::XOR, n2, n3);
    let mut rhs = Expr::empty();
    let n5 = rhs.wire(0);
    let n6 = rhs.wire(1);
    let n7 = rhs.wire(2);
    let n8 = rhs.gate(GateType::XOR, n6, n7);
    let n9 = rhs.gate(GateType::XOR, n5, n8);
    assert(equivalent(lhs, rhs));
    rule("merge-consecutive-xor", lhs, rhs)
}

/// `(not (and a b))` becomes `(or (not a) (not b))`.
fn rule_de_morgan_and() -> (r: Rule)
    ensures
        r.sound(),
        r.shape() == rule_at(22),
{
    let mut lhs = Expr::empty();
    let n0 = lhs.wire(0);
    let n1 = lhs.wire(1);
    let n2 = lhs.gate(GateType::AND, n0, n1);
    let n3 = lhs.gate(GateType::NOT, n2, n2);
    let mut rhs = Expr::empty();
    let n4 = rhs.wire(0);
    let n5 = rhs.gate(GateType::NOT, n4, n4);
    let n6 = rhs.wire(1);
    let n7 = rhs.gate(GateType::NOT, n6, n6);
    let n8 = rhs.gate(GateType::OR, n5, n7);
    assert(equivalent(lhs, rhs));
    rule("de-morgan-and", lhs, rhs)
}

/// `(not (or a b))` becomes `(and (not a) (not b))`.
fn rule_de_morgan_or() -> (r: Rule)
    ensures
        r.sound(),
        r.shape() == rule_at(23),
{
    let mut lhs = Expr::empty();
    let n0 = lhs.wire(0);
    let n1 = lhs.wire(1);
    let n2 = lhs.gate(GateType::OR, n0, n1);
    let n3 = lhs.gate(GateType::NOT, n2, n2);
    let mut rhs = Expr::empty();
    let n4 = rhs.wire(0);
    let n5 = rhs.gate(GateType::NOT, n4, n4);
    let n6 = rhs.wire(1);
    let n7 = rhs.gate(GateType::NOT, n6, n6);
    let n8 = rhs.gate(GateType::AND, n5, n7);
    assert(equivalent(lhs, rhs));
    rule("de-morgan-or", lhs, rhs)
}

/// `(and a 1)` becomes `a`.
fn rule_and_with_one() -> (r: Rule)
    ensures
        r.sound(),
        r.shape() == rule_at(24),
{
    let mut lhs = Expr::empty();
    let n0 = lhs.wire(0);
    let n1 = lhs.gate(GateType::CONST_1, 0, 0);
    let n2 = lhs.gate(GateType::AND, n0, n1);
    let mut rhs = Expr::empty();
    let n3 = rhs.wire(0);
    assert(equivalent(lhs, rhs));
    rule("and-with-one", lhs, rhs)
}

/// `(and a 0)` becomes `zero`.
fn rule_and_with_zero() -> (r: Rule)
    ensures
        r.sound(),
        r.shape() == rule_at(25),
{
    let mut lhs = Expr::empty();
    let n0 = lhs.wire(0);
    let n1 = lhs.gate(GateType::CONST_0, 0, 0);
    let n2 = lhs.gate(GateType::AND, n0, n1);
    let mut rhs = Expr::empty();
    let n3 = rhs.gate(GateType::CONST_0, 0, 0);
    assert(equivalent(lhs, rhs));
    rule("and-with-zero", lhs, rhs)
}

/// `(or a 0)` becomes `a`.
fn rule_or_with_zero() -> (r: Rule)
    ensures
        r.sound(),
        r.shape() == rule_at(26),
{
    let mut lhs = Expr::empty();
    let n0 = lhs.wire(0);
    let n1 = lhs.gate(GateType::CONST_0, 0, 0);
    let n2 = lhs.gate(GateType::OR, n0, n1);
    let mut rhs = Expr::empty();
    let n3 = rhs.wire(0);
    assert(equivalent(lhs, rhs));
    rule("or-with-zero", lhs, rhs)
}

/// `(or a 1)` becomes `one`.
fn rule_or_with_one() -> (r: Rule)
    ensures
        r.sound(),
        r.shape() == rule_at(27),
{
    let mut lhs = Expr::empty();
    let n0 = lhs.wire(0);
    let n1 = lhs.gate(GateType::CONST_1, 0, 0);
    let n2 = lhs.gate(GateType::OR, n0, n1);
    let mut rhs = Expr::empty();
    let n3 = rhs.gate(GateType::CONST_1, 0, 0);
    assert(equivalent(lhs, rhs));
    rule("or-with-one", lhs, rhs)
}

/// `(xor a 0)` becomes `a`.
fn rule_xor_with_zero() -> (r: Rule)
    ensures
        r.sound(),
        r.shape() == rule_at(28),
{
    let mut lhs = Expr::empty();
    let n0 = lhs.wire(0);
    let n1 = lhs.gate(GateType::CONST_0, 0, 0);
    let n2 = lhs.gate(GateType::XOR, n0, n1);
    let mut rhs = Expr::empty();
    let n3 = rhs.wire(0);
    assert(equivalent(lhs, rhs));
    rule("xor-with-zero", lhs, rhs)
}

/// `(xor a a)` becomes `zero`.
fn rule_xor_with_itself() -> (r: Rule)
    ensures
        r.sound(),
        r.shape() == rule_at(29),
{
    let mut lhs = Expr::empty();
    let n0 = lhs.wire(0);
    let n1 = lhs.wire(0);
    let n2 = lhs.gate(GateType::XOR, n0, n1);
    let mut rhs = Expr::empty();
    let n3 = rhs.gate(GateType::CONST_0, 0, 0);
    assert(equivalent(lhs, rhs));
    rule("xor-with-itself", lhs, rhs)
}

/// `(not a)` becomes `(xor a 1)`.
fn rule_not_to_xor() -> (r: Rule)
    ensures
        r.sound(),
        r.shape() == rule_at(30),
{
    let mut lhs = Expr::empty();
    let n0 = lhs.wire(0);
    let n1 = lhs.gate(GateType::NOT, n0, n0);
    let mut rhs = Expr::empty();
    let n2 = rhs.wire(0);
    let n3 = rhs.gate(GateType::CONST_1, 0, 0);
    let n4 = rhs.gate(GateType::XOR, n2, n3);
    assert(equivalent(lhs, rhs));
    rule("not-to-xor", lhs, rhs)
}

/// `(andnot a b)` becomes `(and a (not b))`.
fn rule_andnot_to_and() -> (r: Rule)
    ensures
        r.sound(),
        r.shape() == rule_at(31),
{
    let mut lhs = Expr::empty();
    let n0 = lhs.wire(0);
    let n1 = lhs.wire(1);
    let n2 = lhs.gate(GateType::ANDNOT, n0, n1);
    let mut rhs = Expr::empty();
    let n3 = rhs.wire(0);
    let n4 = rhs.wire(1);
    let n5 = rhs.gate(GateType::NOT, n4, n4);
    let n6 = rhs.gate(GateType::AND, n3, n5);
    assert(equivalent(lhs, rhs));
    rule("andnot-to-and", lhs, rhs)
}

/// `(ornot a b)` becomes `(or a (not b))`.
fn rule_ornot_to_or() -> (r: Rule)
    ensures
        r.sound(),
        r.shape() == rule_at(32),
{
    let mut lhs = Expr::empty();
    let n0 = lhs.wire(0);
    let n1 = lhs.wire(1);
    let n2 = lhs.gate(GateType::ORNOT, n0, n1);
    let mut rhs = Expr::empty();
    let n3 = rhs.wire(0);
    let n4 = rhs.wire(1);
    let n5 = rhs.gate(GateType::NOT, n4, n4);
    let n6 = rhs.gate(GateType::OR, n3, n5);
    assert(equivalent(lhs, rhs));
    rule("ornot-to-or", lhs, rhs)
}

/// The rewrite rules: idempotence, double negation, De Morgan, absorption,
/// the constants as identity and as dominating element, the ways to arrive
/// at an XOR and to regroup or cancel one, and the conversions of the
/// compound kinds. Every rule keeps the truth table, and each stands at its
/// place with its name and its two sides.
pub fn circuit_rules() -> (rules: Vec<Rule>)
    ensures
        rules@.len() == 33,
        forall|i: int| 0 <= i < rules@.len() ==> (#[trigger] rules@[i]).sound(),
        forall|i: int| 0 <= i < rules@.len() ==> (#[trigger] rules@[i]).shape() == rule_at(i),
{
    let mut rules: Vec<Rule> = Vec::new();
    rules.push(rule_simplify_and());
    rules.push(rule_simplify_or());
    rules.push(rule_double_negation_xor());
    rules.push(rule_optimize_xor_combinations());
    rules.push(rule_eliminate_redundant_xor());
    rules.push(rule_nand_to_not());
    rules.push(rule_nand_to_and());
    rules.push(rule_nand_to_or());
    rules.push(rule_de_morgan_nand_to_or());
    rules.push(rule_double_negative());
    rules.push(rule_idempotent_or());
    rules.push(rule_absorption_and());
    rules.push(rule_absorption_or());
    rules.push(rule_or_xor_1());
    rules.push(rule_xor_conv());
    rules.push(rule_xor_conv2());
    rules.push(rule_double_negation_to_xor());
    rules.push(rule_xor_with_negation());
    rules.push(rule_nor_to_not_or());
    rules.push(rule_simplify_nor());
    rules.push(rule_xnor_to_and_or());
    rules.push(rule_merge_consecutive_xor());
    rules.push(rule_de_morgan_and());
    rules.push(rule_de_morgan_or());
    rules.push(rule_and_with_one());
    rules.push(rule_and_with_zero());
    rules.push(rule_or_with_zero());
    rules.push(rule_or_with_one());
    rules.push(rule_xor_with_zero());
    rules.push(rule_xor_with_itself());
    rules.push(rule_not_to_xor());
    rules.push(rule_andnot_to_and());
    rules.push(rule_ornot_to_or());
    rules
}

/// What one node costs to garble: an XOR is nearly free, a NOT cheap, and
/// everything else, leaves and constants too, costs the same.
pub open spec fn weight(node: Node) -> nat {
    match node {
        Node::Gate(GateType::XOR, _, _) => 1,
        Node::Gate(GateType::NOT, _, _) => 2,
        _ => 4,
    }
}

/// The cost of the node at place `i`: its own weight and the cost of every
/// node it reads, so that a node that is read twice counts twice.
pub open spec fn node_cost(nodes: Seq<Node>, i: int) -> nat
    decreases i,
{
    if i < 0 || i >= nodes.len() {
        0
    } else {
        match nodes[i] {
            Node::Wire(_) => weight(nodes[i]),
            Node::Gate(kind, a, b) => weight(nodes[i]) + (if operands(kind) >= 1 && a < i {
                node_cost(nodes, a as int)
            } else {
                0
            }) + (if operands(kind) >= 2 && b < i {
                node_cost(nodes, b as int)
            } else {
                0
            }),
        }
    }
}

/// The cost of a node depends only on the nodes up to it.
pub proof fn lemma_cost_of_prefix(nodes: Seq<Node>, longer: Seq<Node>, i: int)
    requires
        0 <= i < nodes.len() <= longer.len(),
        forall|j: int| 0 <= j <= i ==> nodes[j] == longer[j],
    ensures
        node_cost(nodes, i) == node_cost(longer, i),
    decreases i,
{
    match nodes[i] {
        Node::Wire(_) => {},
        Node::Gate(kind, a, b) => {
            if operands(kind) >= 1 && a < i {
                lemma_cost_of_prefix(nodes, longer, a as int);
            }
            if operands(kind) >= 2 && b < i {
                lemma_cost_of_prefix(nodes, longer, b as int);
            }
        },
    }
}

/// What one more node at the end of an expression costs: its weight and the
/// cost of the nodes it reads; the nodes before it cost what they did.
pub proof fn lemma_cost_of_last(nodes: Seq<Node>, node: Node)
    requires
        node_ok(nodes.push(node), nodes.len() as int),
    ensures
        forall|j: int|
            0 <= j < nodes.len() ==> #[trigger] node_cost(nodes.push(node), j) == node_cost(
                nodes,
                j,
            ),
        node_cost(nodes.push(node), nodes.len() as int) == match node {
            Node::Wire(_) => weight(node),
            Node::Gate(kind, a, b) => weight(node) + (if operands(kind) >= 1 {
                node_cost(nodes, a as int)
            } else {
                0
            }) + (if operands(kind) >= 2 {
                node_cost(nodes, b as int)
            } else {
                0
            }),
        },
{
    let longer = nodes.push(node);
    let last = nodes.len() as int;
    assert forall|j: int| 0 <= j < nodes.len() implies #[trigger] node_cost(longer, j)
        == node_cost(nodes, j) by {
        lemma_cost_of_prefix(nodes, longer, j);
    }
    assert(longer[last] == node);
    assert(node_ok(longer, last));
    match node {
        Node::Wire(_) => {},
        Node::Gate(kind, a, b) => {
            if operands(kind) >= 1 {
                assert(node_cost(longer, a as int) == node_cost(nodes, a as int));
            }
            if operands(kind) >= 2 {
                assert(node_cost(longer, b as int) == node_cost(nodes, b as int));
            }
        },
    }
}

impl Expr {
    /// The cost of the expression: that of its root.
    pub open spec fn garble_cost(self) -> nat {
        node_cost(self.nodes@, self.nodes@.len() - 1)
    }

    /// Computes the cost of the expression, or `None` where it does not fit
    /// the integer.
    pub fn cost(&self) -> (r: Option<u64>)
        ensures
            match r {
                Some(c) => c == self.garble_cost(),
                None => self.garble_cost() > u64::MAX,
            },
    {
        let mut costs: Vec<Option<u64>> = Vec::new();
        let mut i: usize = 0;
        while i < self.nodes.len()
            invariant
                i <= self.nodes.len(),
                costs.len() == i,
                forall|j: int|
                    0 <= j < i ==> match #[trigger] costs[j] {
                        Some(c) => c == node_cost(self.nodes@, j),
                        None => node_cost(self.nodes@, j) > u64::MAX,
                    },
            decreases self.nodes.len() - i,
        {
            let own: u64 = match self.nodes[i] {
                Node::Gate(GateType::XOR, _, _) => 1,
                Node::Gate(GateType::NOT, _, _) => 2,
                _ => 4,
            };
            let total: Option<u64> = match self.nodes[i] {
                Node::Wire(_) => Some(own),
                Node::Gate(kind, a, b) => {
                    let n = operand_count(kind);
                    let first: Option<u64> = if n >= 1 && a < i {
                        costs[a]
                    } else {
                        Some(0)
                    };
                    let second: Option<u64> = if n >= 2 && b < i {
                        costs[b]
                    } else {
                        Some(0)
                    };
                    match (first, second) {
                        (Some(x), Some(y)) => match own.checked_add(x) {
                            Some(s) => s.checked_add(y),
                            None => None,
                        },
                        _ => None,
                    }
                },
            };
            costs.push(total);
            i += 1;
        }
        if self.nodes.len() == 0 {
            Some(0)
        } else {
            costs[self.nodes.len() - 1]
        }
    }
}

/// The one of the two that is kept: the candidate if it is an expression
/// whose cost fits the integer and is no more than that of the original;
/// otherwise the original.
pub open spec fn kept(original: Expr, candidate: Expr) -> Expr {
    if candidate.wf() && candidate.garble_cost() <= u64::MAX && candidate.garble_cost()
        <= original.garble_cost() {
        candidate
    } else {
        original
    }
}

/// Keeps the candidate only if it is an expression that costs no more than
/// the original; otherwise the original stays.
pub fn cheaper_of(original: Expr, candidate: Expr) -> (r: Expr)
    ensures
        r == kept(original, candidate),
        r.garble_cost() <= original.garble_cost(),
        r == original || r == candidate,
        r == candidate <== candidate.wf() && candidate.garble_cost() <= original.garble_cost()
            && candidate.garble_cost() <= u64::MAX,
        r == candidate ==> candidate.wf() || candidate == original,
{
    if !candidate.is_wf() {
        return original;
    }
    match candidate.cost() {
        None => original,
        Some(c) => match original.cost() {
            None => candidate,
            Some(o) => if c <= o {
                candidate
            } else {
                original
            },
        },
    }
}

} // verus!
