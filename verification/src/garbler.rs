//! The garbler: gives every wire a pair of labels that differ by the global
//! offset, and every gate a table of encrypted output labels. XOR gates need
//! no table.
use crate::error::ProtocolError;
use crate::netlist::{is_topological, reads, topo_sort_wires, Netlist};
use crate::primitives::{base64_encode, fernet_open, fernet_seal, shuffle_rows};
use crate::utils::{
    bytes_xor, canonical, copy_wires, decode_label, derive_row_key, generate_keys, is_label,
    label_bytes, offset_pair, row_key, xor_bytes, Circuit, GateType,
};
use std::collections::BTreeMap;
use vstd::prelude::*;
use vstd::utf8::encode_utf8;

verus! {

/// One gate after garbling.
#[derive(Debug)]
pub struct GarbledGate {
    pub operation: GateType,
    pub table: Vec<String>,
    pub input_wire_ids: Vec<u64>,
    pub output_keys: (String, String),
}

impl Clone for GarbledGate {
    /// A copy with the same kind, rows, wires and labels.
    fn clone(&self) -> (r: Self)
        ensures
            r.operation == self.operation,
            r.table@ == self.table@,
            r.input_wire_ids@ == self.input_wire_ids@,
            r.output_keys == self.output_keys,
    {
        let table = self.table.clone();
        let input_wire_ids = self.input_wire_ids.clone();
        assert(table@ =~= self.table@);
        assert(input_wire_ids@ =~= self.input_wire_ids@);
        GarbledGate {
            operation: self.operation,
            table,
            input_wire_ids,
            output_keys: (self.output_keys.0.clone(), self.output_keys.1.clone()),
        }
    }
}

/// The label of a pair that stands for `bit`.
pub open spec fn pick(pair: (String, String), bit: bool) -> Seq<char> {
    if bit {
        pair.1@
    } else {
        pair.0@
    }
}

/// The table has a row that carries `label` for the key `key`.
pub open spec fn carries(table: Seq<String>, key: Seq<char>, label: Seq<char>) -> bool {
    exists|i: int|
        0 <= i < table.len() && #[trigger] fernet_open(key, table[i]@) == Some(encode_utf8(label))
}

/// The input labels that stand for the bits `a` and `b`; a gate with one
/// input has no use for `b`.
pub open spec fn input_labels(in_keys: Seq<(String, String)>, a: bool, b: bool) -> Seq<Seq<char>> {
    if in_keys.len() == 1 {
        seq![pick(in_keys[0], a)]
    } else {
        seq![pick(in_keys[0], a), pick(in_keys[1], b)]
    }
}

impl GarbledGate {
    /// This is a garbling of its kind for the given input label pairs.
    /// An XOR gate has no table, and its label for 0 is the XOR of its inputs'
    /// labels for 0. Any other gate has one row for each combination of input
    /// bits, four for two inputs and two for one, and the table carries, under
    /// the key of each combination, the output label of the bit that the truth
    /// table gives.
    pub open spec fn garbles(self, in_keys: Seq<(String, String)>) -> bool {
        &&& self.operation != GateType::INPUT
        &&& in_keys.len() == self.operation.fan_in()
        &&& if self.operation == GateType::XOR {
            &&& self.table@.len() == 0
            &&& is_label(in_keys[0].0@)
            &&& is_label(in_keys[1].0@)
            &&& label_bytes(self.output_keys.0@) == Some(
                xor_bytes(label_bytes(in_keys[0].0@)->0, label_bytes(in_keys[1].0@)->0),
            )
            &&& canonical(self.output_keys.0@)
        } else {
            &&& self.table@.len() == 2 * in_keys.len()
            &&& forall|a: bool, b: bool| #[trigger]
                carries(
                    self.table@,
                    row_key(input_labels(in_keys, a, b)),
                    pick(self.output_keys, self.operation.output(a, b)),
                )
        }
    }
}

/// The wires that some party lists.
pub open spec fn party_wires(parties: Seq<(String, Vec<u64>)>) -> Set<u64> {
    Set::new(
        |w: u64|
            exists|p: int, k: int|
                0 <= p < parties.len() && 0 <= k < parties[p].1@.len() && #[trigger] parties[p].1@[k]
                    == w,
    )
}

/// The label pairs of the wires that the driver of `w` reads, in order.
pub open spec fn in_pairs(c: Netlist, keys: Map<u64, (String, String)>, w: u64) -> Seq<
    (String, String),
> {
    c[w].1@.map_values(|v: u64| keys[v])
}

/// A gate reads a wire that will have no label when it is garbled: the
/// wire has none yet, and no gate of the netlist will give it one.
pub open spec fn dangling(c: Netlist, keys: Map<u64, (String, String)>) -> bool {
    exists|w: u64, v: u64|
        #[trigger] reads(c, w, v) && c[w].0 != GateType::INPUT && !keys.contains_key(v) && !(
        c.contains_key(v) && c[v].0 != GateType::INPUT)
}

/// A gate has another number of inputs than a garbled gate of its kind
/// reads. A constant counts as a gate with one input: its rows are keyed by
/// the labels of a wire, so that a constant that reads nothing is a misfit.
pub open spec fn misfit(c: Netlist) -> bool {
    exists|w: u64|
        #[trigger] c.contains_key(w) && c[w].0 != GateType::INPUT && c[w].1@.len()
            != c[w].0.fan_in()
}

/// What garbling a netlist with the offset `delta` leaves behind: label
/// pairs `keys` and garbled gates `gates`.
pub open spec fn garbling(
    c: Netlist,
    delta: Seq<char>,
    keys: Map<u64, (String, String)>,
    gates: Map<u64, GarbledGate>,
) -> bool {
    &&& is_label(delta)
    &&& forall|w: u64| #[trigger]
        keys.contains_key(w) ==> offset_pair(keys[w].0@, keys[w].1@, delta)
    &&& forall|w: u64| #[trigger]
        gates.contains_key(w) ==> c.contains_key(w) && c[w].0 != GateType::INPUT
    &&& forall|w: u64|
        #[trigger] c.contains_key(w) && c[w].0 != GateType::INPUT ==> {
            &&& gates.contains_key(w)
            &&& keys.contains_key(w)
            &&& gates[w].operation == c[w].0
            &&& gates[w].input_wire_ids@ == c[w].1@
            &&& gates[w].output_keys == keys[w]
            &&& forall|v: u64| reads(c, w, v) ==> keys.contains_key(v)
            &&& gates[w].garbles(in_pairs(c, keys, w))
        }
}

/// The input bits of row `j` before the rows are shuffled: with one input
/// the rows are those of 0 and 1; with two inputs the first bit changes
/// every second row and the second with every row.
pub open spec fn row_bits(inputs: nat, j: int) -> (bool, bool) {
    if inputs == 1 {
        (j == 1, false)
    } else {
        (j >= 2, j % 2 == 1)
    }
}

/// The row of a combination of input bits before the rows are shuffled.
pub open spec fn row_of(inputs: nat, a: bool, b: bool) -> int {
    if inputs == 1 {
        if a {
            1
        } else {
            0
        }
    } else {
        (if a {
            2int
        } else {
            0int
        }) + (if b {
            1int
        } else {
            0int
        })
    }
}

/// Executable form of [`row_bits`].
fn bits_of_row(inputs: usize, j: usize) -> (r: (bool, bool))
    ensures
        r == row_bits(inputs as nat, j as int),
{
    if inputs == 1 {
        (j == 1, false)
    } else {
        (j >= 2, j % 2 == 1)
    }
}

/// Encrypts one row: the output label under the key of the input labels.
fn seal_row(labels: &Vec<String>, plain: &String) -> (r: String)
    requires
        labels.len() >= 1,
    ensures
        fernet_open(row_key(labels@.map_values(|l: String| l@)), r@) == Some(encode_utf8(plain@)),
{
    let key = derive_row_key(labels);
    fernet_seal(key.as_str(), plain.as_str().as_bytes()).unwrap()
}

/// The input labels for one combination of bits, as owned strings.
fn labels_for(in_keys: &Vec<(String, String)>, a: bool, b: bool) -> (r: Vec<String>)
    requires
        1 <= in_keys.len() <= 2,
    ensures
        r@.map_values(|l: String| l@) == input_labels(in_keys@, a, b),
        r.len() == in_keys.len(),
{
    let mut r: Vec<String> = Vec::new();
    if a {
        r.push(in_keys[0].1.clone());
    } else {
        r.push(in_keys[0].0.clone());
    }
    if in_keys.len() == 2 {
        if b {
            r.push(in_keys[1].1.clone());
        } else {
            r.push(in_keys[1].0.clone());
        }
    }
    assert(r@.map_values(|l: String| l@) =~= input_labels(in_keys@, a, b));
    r
}

/// Holds the offset, the netlist and what has been garbled of it so far.
#[derive(Debug)]
pub struct Garbler {
    delta: String,
    circuit: Circuit,
    wire_to_keys: BTreeMap<u64, (String, String)>,
    garbled_gates: BTreeMap<u64, GarbledGate>,
}

impl Garbler {
    #[verifier::type_invariant]
    spec fn well_formed(self) -> bool {
        &&& is_label(self.delta@)
        &&& forall|w: u64| #[trigger]
            self.wire_to_keys@.contains_key(w) ==> offset_pair(
                self.wire_to_keys@[w].0@,
                self.wire_to_keys@[w].1@,
                self.delta@,
            )
        &&& forall|w: u64| #[trigger]
            self.garbled_gates@.contains_key(w) ==> self.circuit@.contains_key(w)
                && self.circuit@[w].0 != GateType::INPUT
    }

    /// The offset between the two labels of every wire.
    pub closed spec fn delta(self) -> Seq<char> {
        self.delta@
    }

    /// The netlist to garble.
    pub closed spec fn netlist(self) -> Netlist {
        self.circuit@
    }

    /// The label pairs assigned so far.
    pub closed spec fn keys(self) -> Map<u64, (String, String)> {
        self.wire_to_keys@
    }

    /// The gates garbled so far.
    pub closed spec fn gates(self) -> Map<u64, GarbledGate> {
        self.garbled_gates@
    }

    /// The truth table of a gate kind.
    pub fn switch_gate(&self, gate_type: GateType, a_val: bool, b_val: bool) -> (r: bool)
        ensures
            r == gate_type.output(a_val, b_val),
    {
        match gate_type {
            GateType::AND => a_val && b_val,
            GateType::OR => a_val || b_val,
            GateType::NOR => !(a_val || b_val),
            GateType::ORNOT => a_val || !b_val,
            GateType::NAND => !(a_val && b_val),
            GateType::ANDNOT => a_val && !b_val,
            GateType::XNOR => a_val == b_val,
            GateType::XOR => a_val != b_val,
            GateType::NOT => !a_val,
            GateType::CONST_0 => false,
            GateType::CONST_1 => true,
            GateType::CONST => a_val,
            GateType::INPUT => a_val,
        }
    }

    /// Garbles one gate. `in_keys` holds the label pairs of the wires in
    /// `gate_input_names`, in the same order. With an `output` pair the rows
    /// encrypt its labels; without one a fresh pair is sampled. An XOR gate
    /// ignores `output`: its labels follow from those of its inputs.
    ///
    /// Fails with `ArityMismatch` when the number of inputs does not fit the
    /// kind, and with `LabelMismatch` when an XOR gate is given an input text
    /// that is not a label.
    pub fn garble_gate(
        &self,
        gate_op: GateType,
        in_keys: &Vec<(String, String)>,
        output: Option<(String, String)>,
        gate_input_names: Vec<u64>,
    ) -> (r: Result<GarbledGate, ProtocolError>)
        ensures
            r matches Err(e) ==> e == ProtocolError::ArityMismatch || e
                == ProtocolError::LabelMismatch,
            r == Err::<GarbledGate, ProtocolError>(ProtocolError::ArityMismatch) <==> (gate_op
                == GateType::INPUT || in_keys.len() != gate_op.fan_in()
                || gate_input_names.len() != in_keys.len()),
            r == Err::<GarbledGate, ProtocolError>(ProtocolError::LabelMismatch) <==> (gate_op
                == GateType::XOR && in_keys.len() == 2 && gate_input_names.len() == 2 && !(
            is_label(in_keys[0].0@) && is_label(in_keys[1].0@))),
            r matches Ok(g) ==> {
                &&& g.operation == gate_op
                &&& g.input_wire_ids@ == gate_input_names@
                &&& g.garbles(in_keys@)
                &&& gate_op != GateType::XOR && output is Some ==> g.output_keys == output->0
                &&& gate_op == GateType::XOR || output is None ==> offset_pair(
                    g.output_keys.0@,
                    g.output_keys.1@,
                    self.delta(),
                )
            },
    {
        proof {
            use_type_invariant(self);
        }
        if gate_op == GateType::INPUT || in_keys.len() != gate_op.garbled_arity()
            || gate_input_names.len() != in_keys.len() {
            return Err(ProtocolError::ArityMismatch);
        }
        if gate_op == GateType::XOR {
            let a0 = match decode_label(&in_keys[0].0) {
                Some(b) => b,
                None => {
                    return Err(ProtocolError::LabelMismatch);
                },
            };
            let b0 = match decode_label(&in_keys[1].0) {
                Some(b) => b,
                None => {
                    return Err(ProtocolError::LabelMismatch);
                },
            };
            let d = decode_label(&self.delta).unwrap();
            let output_0_bytes = bytes_xor(&a0, &b0);
            let output_1_bytes = bytes_xor(&output_0_bytes, &d);
            let base64_output_0 = base64_encode(output_0_bytes.as_slice());
            let base64_output_1 = base64_encode(output_1_bytes.as_slice());
            return Ok(
                GarbledGate {
                    operation: gate_op,
                    table: Vec::new(),
                    input_wire_ids: gate_input_names,
                    output_keys: (base64_output_0, base64_output_1),
                },
            );
        }
        let output_labels = match output {
            Some(pair) => pair,
            None => generate_keys(&self.delta).unwrap(),
        };
        let rows: usize = 2 * in_keys.len();
        let mut garbled_table: Vec<String> = Vec::new();
        let mut i: usize = 0;
        while i < rows
            invariant
                i <= rows,
                rows == 2 * in_keys.len(),
                1 <= in_keys.len() <= 2,
                garbled_table.len() == i,
                forall|j: int|
                    0 <= j < i ==> fernet_open(
                        row_key(
                            input_labels(in_keys@, row_bits(in_keys@.len(), j).0, row_bits(
                                in_keys@.len(),
                                j,
                            ).1),
                        ),
                        #[trigger] garbled_table@[j]@,
                    ) == Some(
                        encode_utf8(
                            pick(
                                output_labels,
                                gate_op.output(
                                    row_bits(in_keys@.len(), j).0,
                                    row_bits(in_keys@.len(), j).1,
                                ),
                            ),
                        ),
                    ),
            decreases rows - i,
        {
            let (a_val, b_val) = bits_of_row(in_keys.len(), i);
            let out_val = self.switch_gate(gate_op, a_val, b_val);
            let labels = labels_for(in_keys, a_val, b_val);
            let row = if out_val {
                seal_row(&labels, &output_labels.1)
            } else {
                seal_row(&labels, &output_labels.0)
            };
            garbled_table.push(row);
            i += 1;
        }
        let ghost ordered = garbled_table@;
        shuffle_rows(&mut garbled_table);
        let g = GarbledGate {
            operation: gate_op,
            table: garbled_table,
            input_wire_ids: gate_input_names,
            output_keys: output_labels,
        };
        proof {
            vstd::seq_lib::to_multiset_len(ordered);
            vstd::seq_lib::to_multiset_len(g.table@);
            assert forall|a: bool, b: bool| #[trigger]
                carries(
                    g.table@,
                    row_key(input_labels(in_keys@, a, b)),
                    pick(g.output_keys, g.operation.output(a, b)),
                ) by {
                let j = row_of(in_keys@.len(), a, b);
                let bits = row_bits(in_keys@.len(), j);
                assert(input_labels(in_keys@, bits.0, bits.1) == input_labels(in_keys@, a, b));
                assert(gate_op.output(bits.0, bits.1) == gate_op.output(a, b));
                let row = ordered[j];
                assert(ordered.contains(row));
                vstd::seq_lib::to_multiset_contains(ordered, row);
                vstd::seq_lib::to_multiset_contains(g.table@, row);
                let at = choose|at: int| 0 <= at < g.table@.len() && g.table@[at] == row;
                assert(fernet_open(row_key(input_labels(in_keys@, a, b)), g.table@[at]@) == Some(
                    encode_utf8(pick(g.output_keys, g.operation.output(a, b))),
                ));
            }
        }
        Ok(g)
    }

    /// Prepares the garbling of `circuit` with the offset `delta`: every wire
    /// that a party lists in `ins` or `outs` gets a fresh label pair. Returns
    /// `None` exactly when `delta` is not a label.
    pub fn new(
        delta: String,
        circuit: Circuit,
        ins: Vec<(String, Vec<u64>)>,
        outs: Vec<(String, Vec<u64>)>,
    ) -> (r: Option<Self>)
        ensures
            r is Some <==> is_label(delta@),
            r matches Some(g) ==> {
                &&& g.delta() == delta@
                &&& g.netlist() == circuit@
                &&& g.keys().dom() == party_wires(ins@) + party_wires(outs@)
                &&& forall|w: u64| #[trigger]
                    g.keys().contains_key(w) ==> offset_pair(
                        g.keys()[w].0@,
                        g.keys()[w].1@,
                        delta@,
                    )
                &&& g.gates() == Map::<u64, GarbledGate>::empty()
            },
    {
        if decode_label(&delta).is_none() {
            return None;
        }
        let mut wire_to_keys: BTreeMap<u64, (String, String)> = BTreeMap::new();
        if !allot(&delta, &ins, &mut wire_to_keys) {
            return None;
        }
        if !allot(&delta, &outs, &mut wire_to_keys) {
            return None;
        }
        assert(wire_to_keys@.dom() =~= party_wires(ins@) + party_wires(outs@));
        Some(Self { delta, circuit, wire_to_keys, garbled_gates: BTreeMap::new() })
    }

    /// Garbles the netlist, gate by gate in topological order, and returns
    /// the label pairs of all wires and the garbled gates.
    ///
    /// Fails with `CycleDetected` when the netlist has a cycle; otherwise with
    /// `UnknownWire` when a gate reads a wire that has no label pair and that
    /// no gate drives; otherwise with `ArityMismatch` when a gate's kind does
    /// not fit the number of its inputs. A failed call garbles nothing.
    ///
    /// A label pair that was there before stays, except on the output of an
    /// XOR gate, whose labels follow from those of its inputs.
    pub fn build(&mut self) -> (r: Result<
        (BTreeMap<u64, (String, String)>, BTreeMap<u64, GarbledGate>),
        ProtocolError,
    >)
        ensures
            final(self).netlist() == old(self).netlist(),
            final(self).delta() == old(self).delta(),
            match r {
                Ok((keys, gates)) => {
                    &&& crate::netlist::acyclic(old(self).netlist())
                    &&& !dangling(old(self).netlist(), old(self).keys())
                    &&& !misfit(old(self).netlist())
                    &&& keys@ == final(self).keys()
                    &&& gates@ == final(self).gates()
                    &&& garbling(old(self).netlist(), old(self).delta(), keys@, gates@)
                    &&& forall|w: u64| #[trigger]
                        old(self).keys().contains_key(w) ==> keys@.contains_key(w) && (!(
                        old(self).netlist().contains_key(w) && old(self).netlist()[w].0
                            == GateType::XOR) ==> keys@[w] == old(self).keys()[w])
                },
                Err(e) => {
                    &&& final(self).keys() == old(self).keys()
                    &&& final(self).gates() == old(self).gates()
                    &&& match e {
                        ProtocolError::CycleDetected => !crate::netlist::acyclic(
                            old(self).netlist(),
                        ),
                        ProtocolError::UnknownWire => crate::netlist::acyclic(old(self).netlist())
                            && dangling(old(self).netlist(), old(self).keys()),
                        ProtocolError::ArityMismatch => crate::netlist::acyclic(
                            old(self).netlist(),
                        ) && !dangling(old(self).netlist(), old(self).keys()) && misfit(
                            old(self).netlist(),
                        ),
                        _ => false,
                    }
                },
            },
    {
        broadcast use vstd::std_specs::btree::group_btree_axioms;

        proof {
            use_type_invariant(&*self);
        }
        let sorted_wires = match topo_sort_wires(&self.circuit) {
            Ok(order) => order,
            Err(e) => {
                return Err(e);
            },
        };
        match validate(&self.circuit, &self.wire_to_keys, &sorted_wires) {
            Ok(()) => {},
            Err(e) => {
                return Err(e);
            },
        }
        let ghost c = self.circuit@;
        let ghost delta = self.delta@;
        let ghost before = self.wire_to_keys@;
        let mut keys = self.wire_to_keys.clone();
        let mut gates = self.garbled_gates.clone();
        let mut i: usize = 0;
        while i < sorted_wires.len()
            invariant
                i <= sorted_wires.len(),
                is_topological(c, sorted_wires@),
                !dangling(c, before),
                !misfit(c),
                self.circuit@ == c,
                self.delta@ == delta,
                is_label(delta),
                forall|w: u64| #[trigger]
                    keys@.contains_key(w) ==> offset_pair(
                        keys@[w].0@,
                        keys@[w].1@,
                        delta,
                    ),
                forall|w: u64| #[trigger]
                    before.contains_key(w) ==> keys@.contains_key(w) && (!(
                    c.contains_key(w) && c[w].0 == GateType::XOR) ==> keys@[w]
                        == before[w]),
                forall|j: int|
                    0 <= j < i ==> garbled_at(
                        c,
                        keys@,
                        gates@,
                        #[trigger] sorted_wires@[j],
                    ),
                forall|w: u64| #[trigger]
                    gates@.contains_key(w) ==> c.contains_key(w) && c[w].0 != GateType::INPUT,
            decreases sorted_wires.len() - i,
        {
            let wire: u64 = sorted_wires[i];
            let ghost keys0 = keys@;
            let ghost gates0 = gates@;
            match self.circuit.get(&wire) {
                None => {},
                Some(gate) => {
                    if gate.0 != GateType::INPUT {
                        let gate_type = gate.0;
                        let gate_inputs = &gate.1;
                        let mut in_keys: Vec<(String, String)> = Vec::new();
                        let mut k: usize = 0;
                        while k < gate_inputs.len()
                            invariant
                                k <= gate_inputs.len(),
                                in_keys.len() == k,
                                i < sorted_wires.len(),
                                wire == sorted_wires@[i as int],
                                c.contains_key(wire),
                                gate_inputs@ == c[wire].1@,
                                c[wire].0 != GateType::INPUT,
                                is_topological(c, sorted_wires@),
                                !dangling(c, before),
                                keys@ == keys0,
                                forall|w: u64| #[trigger]
                                    before.contains_key(w) ==> keys0.contains_key(w),
                                forall|j: int|
                                    0 <= j < i ==> garbled_at(
                                        c,
                                        keys0,
                                        gates@,
                                        #[trigger] sorted_wires@[j],
                                    ),
                                forall|j: int|
                                    0 <= j < k ==> keys0.contains_key(#[trigger] gate_inputs@[j])
                                        && in_keys@[j] == keys0[gate_inputs@[j]],
                            decreases gate_inputs.len() - k,
                        {
                            let v: u64 = gate_inputs[k];
                            proof {
                                assert(reads(c, wire, v));
                                lemma_read_wire_has_keys(
                                    c,
                                    before,
                                    keys0,
                                    gates@,
                                    sorted_wires@,
                                    i as int,
                                    v,
                                );
                            }
                            let pair = keys.get(&v).unwrap();
                            let zero = pair.0.clone();
                            let one = pair.1.clone();
                            assert((zero, one) == keys0[v]);
                            in_keys.push((zero, one));
                            k += 1;
                        }
                        let output_wire_keys = match keys.get(&wire) {
                            Some(pair) => Some((pair.0.clone(), pair.1.clone())),
                            None => None,
                        };
                        let names = copy_wires(gate_inputs);
                        proof {
                            assert(c.contains_key(wire));
                            assert(c[wire].1@.len() == c[wire].0.fan_in());
                            assert(in_keys@ =~= in_pairs(c, keys0, wire));
                            assert(is_label(in_keys@[0].0@) && (in_keys.len() == 2 ==> is_label(
                                in_keys@[1].0@,
                            ))) by {
                                assert(keys0.contains_key(gate_inputs@[0]));
                                if in_keys.len() == 2 {
                                    assert(keys0.contains_key(gate_inputs@[1]));
                                }
                            }
                        }
                        let gg = self.garble_gate(
                            gate_type,
                            &in_keys,
                            output_wire_keys,
                            names,
                        ).unwrap();
                        let label_0 = gg.output_keys.0.clone();
                        let label_1 = gg.output_keys.1.clone();
                        proof {
                            if keys0.contains_key(wire) {
                                assert(offset_pair(keys0[wire].0@, keys0[wire].1@, delta));
                            }
                        }
                        keys.insert(wire, (label_0, label_1));
                        gates.insert(wire, gg);
                        proof {
                            lemma_step_keeps_garbled(
                                c,
                                keys0,
                                gates0,
                                keys@,
                                gates@,
                                sorted_wires@,
                                i as int,
                            );
                        }
                    }
                },
            }
            i += 1;
        }
        proof {
            assert forall|w: u64| #[trigger]
                c.contains_key(w) && c[w].0 != GateType::INPUT implies garbled_at(
                c,
                keys@,
                gates@,
                w,
            ) && gates@.contains_key(w) by {
                assert(crate::netlist::mentions(c, w));
                assert(sorted_wires@.contains(w));
                let j = choose|j: int| 0 <= j < sorted_wires@.len() && sorted_wires@[j] == w;
                assert(garbled_at(c, keys@, gates@, sorted_wires@[j]));
            }
        }
        self.wire_to_keys = keys;
        self.garbled_gates = gates;
        Ok((self.wire_to_keys.clone(), self.garbled_gates.clone()))
    }
}

/// What garbling leaves behind for one wire: nothing is asked of an input
/// wire or of one that the netlist does not define.
pub open spec fn garbled_at(
    c: Netlist,
    keys: Map<u64, (String, String)>,
    gates: Map<u64, GarbledGate>,
    w: u64,
) -> bool {
    c.contains_key(w) && c[w].0 != GateType::INPUT ==> {
        &&& gates.contains_key(w)
        &&& keys.contains_key(w)
        &&& gates[w].operation == c[w].0
        &&& gates[w].input_wire_ids@ == c[w].1@
        &&& gates[w].output_keys == keys[w]
        &&& forall|v: u64| reads(c, w, v) ==> keys.contains_key(v)
        &&& gates[w].garbles(in_pairs(c, keys, w))
    }
}

/// A wire that is read at place `at` has a label pair by the time the
/// gates before it are garbled.
proof fn lemma_read_wire_has_keys(
    c: Netlist,
    before: Map<u64, (String, String)>,
    keys: Map<u64, (String, String)>,
    gates: Map<u64, GarbledGate>,
    order: Seq<u64>,
    at: int,
    v: u64,
)
    requires
        is_topological(c, order),
        !dangling(c, before),
        0 <= at < order.len(),
        reads(c, order[at], v),
        c[order[at]].0 != GateType::INPUT,
        forall|w: u64| #[trigger] before.contains_key(w) ==> keys.contains_key(w),
        forall|j: int| 0 <= j < at ==> garbled_at(c, keys, gates, #[trigger] order[j]),
    ensures
        keys.contains_key(v),
{
    if !before.contains_key(v) {
        assert(c.contains_key(v) && c[v].0 != GateType::INPUT);
        let j = choose|j: int| 0 <= j < at && order[j] == v;
        assert(garbled_at(c, keys, gates, order[j]));
    }
}

/// Garbling at place `at` leaves the gates before it as they were.
proof fn lemma_step_keeps_garbled(
    c: Netlist,
    keys0: Map<u64, (String, String)>,
    gates0: Map<u64, GarbledGate>,
    keys1: Map<u64, (String, String)>,
    gates1: Map<u64, GarbledGate>,
    order: Seq<u64>,
    at: int,
)
    requires
        is_topological(c, order),
        0 <= at < order.len(),
        c.contains_key(order[at]),
        keys1.contains_key(order[at]),
        gates1.contains_key(order[at]),
        keys1 == keys0.insert(order[at], keys1[order[at]]),
        gates1 == gates0.insert(order[at], gates1[order[at]]),
        forall|j: int| 0 <= j < at ==> garbled_at(c, keys0, gates0, #[trigger] order[j]),
        forall|v: u64| reads(c, order[at], v) ==> keys0.contains_key(v),
        gates1[order[at]].operation == c[order[at]].0,
        gates1[order[at]].input_wire_ids@ == c[order[at]].1@,
        gates1[order[at]].output_keys == keys1[order[at]],
        gates1[order[at]].garbles(in_pairs(c, keys0, order[at])),
    ensures
        forall|j: int| 0 <= j <= at ==> garbled_at(c, keys1, gates1, #[trigger] order[j]),
{
    let w = order[at];
    assert forall|j: int| 0 <= j <= at implies garbled_at(c, keys1, gates1, #[trigger] order[j]) by {
        let u = order[j];
        if c.contains_key(u) && c[u].0 != GateType::INPUT {
            assert forall|k: int| 0 <= k < c[u].1@.len() implies c[u].1@[k] != w by {
                let v = c[u].1@[k];
                assert(reads(c, order[j], v));
                let j2 = choose|j2: int| 0 <= j2 < j && order[j2] == v;
                assert(j2 != at);
            }
            assert(in_pairs(c, keys1, u) =~= in_pairs(c, keys0, u));
            if j < at {
                assert(garbled_at(c, keys0, gates0, order[j]));
                assert(u != w);
                assert forall|v: u64| reads(c, u, v) implies keys1.contains_key(v) by {
                    assert(keys0.contains_key(v));
                }
            } else {
                assert forall|v: u64| reads(c, u, v) implies keys1.contains_key(v) by {
                    assert(keys0.contains_key(v));
                }
            }
        }
    }
}

/// Gives every wire that a party lists a fresh label pair. Returns whether
/// `delta` is a label; if it is not, nothing is done.
fn allot(
    delta: &String,
    parties: &Vec<(String, Vec<u64>)>,
    keys: &mut BTreeMap<u64, (String, String)>,
) -> (ok: bool)
    requires
        forall|w: u64| #[trigger]
            old(keys)@.contains_key(w) ==> offset_pair(old(keys)@[w].0@, old(keys)@[w].1@, delta@),
    ensures
        ok == is_label(delta@),
        ok ==> final(keys)@.dom() == old(keys)@.dom() + party_wires(parties@),
        !ok ==> final(keys)@ == old(keys)@,
        forall|w: u64| #[trigger]
            final(keys)@.contains_key(w) ==> offset_pair(
                final(keys)@[w].0@,
                final(keys)@[w].1@,
                delta@,
            ),
{
    broadcast use vstd::std_specs::btree::group_btree_axioms;

    if decode_label(delta).is_none() {
        return false;
    }
    let ghost start = keys@.dom();
    let mut p: usize = 0;
    assert(keys@.dom() =~= start + listed_before(parties@, 0, 0));
    while p < parties.len()
        invariant
            p <= parties.len(),
            is_label(delta@),
            keys@.dom() == start + listed_before(parties@, p as int, 0),
            forall|w: u64| #[trigger]
                keys@.contains_key(w) ==> offset_pair(keys@[w].0@, keys@[w].1@, delta@),
        decreases parties.len() - p,
    {
        let wires = &parties[p].1;
        let mut k: usize = 0;
        while k < wires.len()
            invariant
                p < parties.len(),
                k <= wires.len(),
                wires@ == parties@[p as int].1@,
                is_label(delta@),
                keys@.dom() == start + listed_before(parties@, p as int, k as int),
                forall|w: u64| #[trigger]
                    keys@.contains_key(w) ==> offset_pair(keys@[w].0@, keys@[w].1@, delta@),
            decreases wires.len() - k,
        {
            match generate_keys(delta) {
                Some(pair) => {
                    keys.insert(wires[k], pair);
                },
                None => {},
            }
            assert(listed_before(parties@, p as int, k as int + 1) =~= listed_before(
                parties@,
                p as int,
                k as int,
            ).insert(wires@[k as int])) by {
                assert(parties@[p as int].1@[k as int] == wires@[k as int]);
            }
            k += 1;
        }
        assert(listed_before(parties@, p as int + 1, 0) =~= listed_before(
            parties@,
            p as int,
            k as int,
        ));
        p += 1;
    }
    assert(listed_before(parties@, p as int, 0) =~= party_wires(parties@));
    true
}

/// The wires listed before wire `k` of party `p`.
spec fn listed_before(parties: Seq<(String, Vec<u64>)>, p: int, k: int) -> Set<u64> {
    Set::new(
        |w: u64|
            exists|q: int, j: int|
                0 <= q < parties.len() && 0 <= j < parties[q].1@.len() && (q < p || (q == p && j
                    < k)) && #[trigger] parties[q].1@[j] == w,
    )
}

/// Looks for the first reason not to garble a netlist: a gate that reads a
/// wire without a label, then a gate whose kind does not fit its inputs.
fn validate(circuit: &Circuit, keys: &BTreeMap<u64, (String, String)>, order: &Vec<u64>) -> (r:
    Result<(), ProtocolError>)
    requires
        is_topological(circuit@, order@),
    ensures
        match r {
            Ok(()) => !dangling(circuit@, keys@) && !misfit(circuit@),
            Err(e) => match e {
                ProtocolError::UnknownWire => dangling(circuit@, keys@),
                ProtocolError::ArityMismatch => !dangling(circuit@, keys@) && misfit(circuit@),
                _ => false,
            },
        },
{
    broadcast use vstd::std_specs::btree::group_btree_axioms;

    let ghost c = circuit@;
    let mut unknown: bool = false;
    let mut unfit: bool = false;
    let mut i: usize = 0;
    while i < order.len()
        invariant
            i <= order.len(),
            c == circuit@,
            unknown ==> dangling(c, keys@),
            unfit ==> misfit(c),
            !unknown ==> forall|j: int, v: u64|
                0 <= j < i && #[trigger] reads(c, order@[j], v) && c[order@[j]].0 != GateType::INPUT
                    ==> keys@.contains_key(v) || (c.contains_key(v) && c[v].0 != GateType::INPUT),
            !unfit ==> forall|j: int|
                0 <= j < i && c.contains_key(#[trigger] order@[j]) && c[order@[j]].0
                    != GateType::INPUT ==> c[order@[j]].1@.len() == c[order@[j]].0.fan_in(),
        decreases order.len() - i,
    {
        let wire: u64 = order[i];
        match circuit.get(&wire) {
            None => {},
            Some(gate) => {
                if gate.0 != GateType::INPUT {
                    if gate.1.len() != gate.0.garbled_arity() {
                        unfit = true;
                        assert(c.contains_key(wire));
                    }
                    let mut k: usize = 0;
                    while k < gate.1.len()
                        invariant
                            k <= gate.1.len(),
                            c == circuit@,
                            c.contains_key(wire),
                            *gate == c[wire],
                            gate.0 != GateType::INPUT,
                            unknown ==> dangling(c, keys@),
                            !unknown ==> forall|j: int, v: u64|
                                0 <= j < i && #[trigger] reads(c, order@[j], v) && c[order@[j]].0
                                    != GateType::INPUT ==> keys@.contains_key(v) || (c.contains_key(
                                    v,
                                ) && c[v].0 != GateType::INPUT),
                            !unknown ==> forall|j: int|
                                0 <= j < k ==> keys@.contains_key(#[trigger] gate.1@[j]) || (
                                c.contains_key(gate.1@[j]) && c[gate.1@[j]].0 != GateType::INPUT),
                        decreases gate.1.len() - k,
                    {
                        let v: u64 = gate.1[k];
                        let labelled = keys.contains_key(&v) || match circuit.get(&v) {
                            Some(driver) => driver.0 != GateType::INPUT,
                            None => false,
                        };
                        if !labelled {
                            unknown = true;
                            assert(reads(c, wire, v));
                        }
                        k += 1;
                    }
                    proof {
                        if !unknown {
                            assert forall|v: u64| reads(c, wire, v) implies keys@.contains_key(v)
                                || (c.contains_key(v) && c[v].0 != GateType::INPUT) by {
                                let at = choose|at: int|
                                    0 <= at < gate.1@.len() && gate.1@[at] == v;
                                assert(keys@.contains_key(gate.1@[at]) || (c.contains_key(
                                    gate.1@[at],
                                ) && c[gate.1@[at]].0 != GateType::INPUT));
                            }
                        }
                    }
                }
            },
        }
        i += 1;
    }
    proof {
        if !unknown && dangling(c, keys@) {
            let (w, v) = choose|w: u64, v: u64|
                #[trigger] reads(c, w, v) && c[w].0 != GateType::INPUT && !keys@.contains_key(v)
                    && !(c.contains_key(v) && c[v].0 != GateType::INPUT);
            assert(crate::netlist::mentions(c, w));
            assert(order@.contains(w));
            let j = choose|j: int| 0 <= j < order@.len() && order@[j] == w;
            assert(reads(c, order@[j], v));
        }
        if !unfit && misfit(c) {
            let w = choose|w: u64|
                #[trigger] c.contains_key(w) && c[w].0 != GateType::INPUT && c[w].1@.len()
                    != c[w].0.fan_in();
            assert(crate::netlist::mentions(c, w));
            assert(order@.contains(w));
            let j = choose|j: int| 0 <= j < order@.len() && order@[j] == w;
            assert(c.contains_key(order@[j]));
        }
    }
    if unknown {
        Err(ProtocolError::UnknownWire)
    } else if unfit {
        Err(ProtocolError::ArityMismatch)
    } else {
        Ok(())
    }
}

} // verus!
