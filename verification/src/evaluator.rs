//! The evaluator: walks a garbled netlist with one label per input wire and
//! recovers one label per gate, and from it the bit of every output wire.
use crate::error::ProtocolError;
use crate::garbler::{carries, GarbledGate};
use crate::netlist::{acyclic, is_topological, topo_order, topo_sort_wires, Netlist};
use crate::primitives::{
    base64_decode, base64_encode, fernet_open, fernet_unseal, url_safe_decode, url_safe_encode,
    utf8_text,
};
use crate::utils::{
    bytes_xor, derive_row_key, keys_increase, row_key, wires_of, xor_bytes, Circuit, GateType,
};
use std::collections::BTreeMap;
use vstd::prelude::*;
use vstd::utf8::{decode_utf8, encode_utf8, valid_utf8};

verus! {

/// The texts of a list of labels.
pub open spec fn texts(labels: Seq<String>) -> Seq<Seq<char>> {
    labels.map_values(|l: String| l@)
}

/// `out` is a label that evaluating `g` on the input labels can give. For an
/// XOR gate it is the encoded XOR of the two decoded inputs; for any other
/// gate it is a label that some row of the table carries under the key of
/// the inputs.
pub open spec fn yields(g: GarbledGate, inputs: Seq<Seq<char>>, out: Seq<char>) -> bool {
    if g.operation == GateType::XOR {
        &&& inputs.len() == 2
        &&& url_safe_decode(inputs[0]) is Some
        &&& url_safe_decode(inputs[1]) is Some
        &&& out == url_safe_encode(
            xor_bytes(url_safe_decode(inputs[0])->0, url_safe_decode(inputs[1])->0),
        )
    } else {
        &&& inputs.len() >= 1
        &&& carries(g.table@, row_key(inputs), out)
    }
}

/// The bit that a label stands for on the output of `g`: 0 for the first
/// label of the pair, 1 for the second, nothing for any other text.
pub open spec fn bit_of(g: GarbledGate, label: Seq<char>) -> Option<bool> {
    if g.output_keys.0@ == label {
        Some(false)
    } else if g.output_keys.1@ == label {
        Some(true)
    } else {
        None
    }
}

/// Reads the bit off a recovered output label.
pub fn label_bit(g: &GarbledGate, label: &String) -> (r: Option<bool>)
    ensures
        r == bit_of(*g, label@),
{
    if g.output_keys.0 == *label {
        Some(false)
    } else if g.output_keys.1 == *label {
        Some(true)
    } else {
        None
    }
}

/// The label that the parties supply for `w`: that of the last party that
/// lists the wire, or the one that was there at the start.
pub open spec fn supplied(start: Map<u64, String>, inputs: Seq<Map<u64, String>>, w: u64) -> Option<
    String,
>
    decreases inputs.len(),
{
    if inputs.len() == 0 {
        if start.contains_key(w) {
            Some(start[w])
        } else {
            None
        }
    } else if inputs.last().contains_key(w) {
        Some(inputs.last()[w])
    } else {
        supplied(start, inputs.drop_last(), w)
    }
}

/// The entry of a map, if there is one.
pub open spec fn lookup(m: Map<u64, String>, w: u64) -> Option<String> {
    if m.contains_key(w) {
        Some(m[w])
    } else {
        None
    }
}

/// The labels of the wires that a gate reads, as far as they are known.
pub open spec fn known_inputs(g: GarbledGate, labels: Map<u64, String>) -> Seq<Seq<char>> {
    g.input_wire_ids@.map_values(|v: u64| labels[v]@)
}

/// One step of the walk: at a wire without a garbled gate nothing changes;
/// at a gate, all the wires it reads have labels, and the wire gets a label
/// that its gate yields for them and that is one of the two of its gate.
pub open spec fn step(
    gates: Map<u64, GarbledGate>,
    w: u64,
    before: Map<u64, String>,
    after: Map<u64, String>,
) -> bool {
    if gates.contains_key(w) {
        &&& forall|k: int|
            0 <= k < gates[w].input_wire_ids@.len() ==> before.contains_key(
                #[trigger] gates[w].input_wire_ids@[k],
            )
        &&& after.contains_key(w)
        &&& after == before.insert(w, after[w])
        &&& yields(gates[w], known_inputs(gates[w], before), after[w]@)
        &&& bit_of(gates[w], after[w]@) is Some
    } else {
        after == before
    }
}

/// `trace` records a walk over `order`: the labels known before the first
/// wire, and after each wire in turn.
pub open spec fn is_walk(gates: Map<u64, GarbledGate>, order: Seq<u64>, trace: Seq<Map<u64, String>>) -> bool {
    &&& trace.len() == order.len() + 1
    &&& forall|i: int|
        0 <= i < order.len() ==> step(gates, #[trigger] order[i], trace[i], trace[i + 1])
}

/// The texts of the labels of a map.
pub open spec fn texts_of(labels: Map<u64, String>) -> Map<u64, Seq<char>> {
    Map::new(|w: u64| labels.contains_key(w), |w: u64| labels[w]@)
}

/// The label that an XOR gate gives for two labels: the encoded XOR of
/// what they decode to.
pub open spec fn xor_label(inputs: Seq<Seq<char>>) -> Seq<char> {
    url_safe_encode(xor_bytes(url_safe_decode(inputs[0])->0, url_safe_decode(inputs[1])->0))
}

/// What a step of the walk is sure to give, where no attempt to open a row
/// decides. At a wire without a garbled gate nothing changes. A gate that
/// reads a wire without a label gives `UnknownWire`. An XOR gate gives
/// `ArityMismatch` unless it reads two wires, and `CorruptGarbling` if a
/// label does not decode or the XOR of the two is neither of its own labels;
/// else the wire gets that label. Any other gate gives `ArityMismatch` if it
/// reads nothing and `CorruptGarbling` if no row carries one of its two
/// labels under the key of the labels it reads, as when it has no row at
/// all; else the rows decide, and nothing is sure.
pub open spec fn sure_step(gates: Map<u64, GarbledGate>, w: u64, labels: Map<u64, Seq<char>>) -> Option<
    Result<Map<u64, Seq<char>>, ProtocolError>,
> {
    if !gates.contains_key(w) {
        Some(Ok(labels))
    } else {
        let g = gates[w];
        let ids = g.input_wire_ids@;
        let ins = ids.map_values(|v: u64| labels[v]);
        if exists|k: int| 0 <= k < ids.len() && !labels.contains_key(#[trigger] ids[k]) {
            Some(Err(ProtocolError::UnknownWire))
        } else if g.operation == GateType::XOR {
            if ins.len() != 2 {
                Some(Err(ProtocolError::ArityMismatch))
            } else if url_safe_decode(ins[0]) is None || url_safe_decode(ins[1]) is None {
                Some(Err(ProtocolError::CorruptGarbling))
            } else if bit_of(g, xor_label(ins)) is None {
                Some(Err(ProtocolError::CorruptGarbling))
            } else {
                Some(Ok(labels.insert(w, xor_label(ins))))
            }
        } else if ins.len() == 0 {
            Some(Err(ProtocolError::ArityMismatch))
        } else if !carries(g.table@, row_key(ins), g.output_keys.0@) && !carries(
            g.table@,
            row_key(ins),
            g.output_keys.1@,
        ) {
            Some(Err(ProtocolError::CorruptGarbling))
        } else {
            None
        }
    }
}

/// What the walk over the first `upto` wires of `order` is sure to give:
/// the labels after it, or the first error, or nothing where a step before
/// was not sure.
pub open spec fn sure_walk(
    gates: Map<u64, GarbledGate>,
    order: Seq<u64>,
    start: Map<u64, Seq<char>>,
    upto: nat,
) -> Option<Result<Map<u64, Seq<char>>, ProtocolError>>
    decreases upto,
{
    if upto == 0 {
        Some(Ok(start))
    } else {
        match sure_walk(gates, order, start, (upto - 1) as nat) {
            Some(Ok(labels)) => sure_step(gates, order[upto - 1], labels),
            other => other,
        }
    }
}

/// What a run that walks the wires in `order` is sure to give, where no
/// attempt to open a row decides: a netlist with a cycle gives
/// `CycleDetected`; then a supplied wire without a label pair gives
/// `UnknownWire` and a supplied label that is none of its wire
/// `LabelMismatch`; then the walk gives what it is sure of; then a wanted
/// wire that no garbled gate of the walk drives gives `UnknownWire`; else
/// every wanted wire has the bit of its label.
pub open spec fn sure_run(
    c: Netlist,
    order: Seq<u64>,
    keys: Map<u64, (String, String)>,
    gates: Map<u64, GarbledGate>,
    outputs: Seq<u64>,
    start: Map<u64, String>,
    inputs: Seq<BTreeMap<u64, String>>,
) -> Option<Result<Map<u64, bool>, ProtocolError>> {
    let parties = inputs.map_values(|m: BTreeMap<u64, String>| m@);
    let first = Map::new(
        |w: u64| supplied(start, parties, w) is Some,
        |w: u64| supplied(start, parties, w)->0@,
    );
    if !acyclic(c) {
        Some(Err(ProtocolError::CycleDetected))
    } else if supplies_unknown(inputs, keys) {
        Some(Err(ProtocolError::UnknownWire))
    } else if supplies_foreign(inputs, keys) {
        Some(Err(ProtocolError::LabelMismatch))
    } else {
        match sure_walk(gates, order, first, order.len()) {
            None => None,
            Some(Err(e)) => Some(Err(e)),
            Some(Ok(labels)) => if exists|k: int|
                0 <= k < outputs.len() && !(gates.contains_key(#[trigger] outputs[k])
                    && order.contains(outputs[k])) {
                Some(Err(ProtocolError::UnknownWire))
            } else {
                Some(
                    Ok(
                        Map::new(
                            |w: u64| outputs.contains(w),
                            |w: u64| bit_of(gates[w], labels[w])->0,
                        ),
                    ),
                )
            },
        }
    }
}

/// What a run that succeeds leaves behind. Some walk over the order, from
/// the labels that the parties supply, ends in the labels `after`; every
/// wanted wire is a wire of the order with a garbled gate, and `bits` has,
/// for exactly the wanted wires, the bit that the label of the wire stands
/// for.
pub open spec fn ran_well(
    gates: Map<u64, GarbledGate>,
    order: Seq<u64>,
    outputs: Seq<u64>,
    start: Map<u64, String>,
    inputs: Seq<BTreeMap<u64, String>>,
    after: Map<u64, String>,
    bits: Map<u64, bool>,
) -> bool {
    &&& forall|w: u64| outputs.contains(w) ==> order.contains(w)
    &&& exists|trace: Seq<Map<u64, String>>|
        {
            &&& #[trigger] is_walk(gates, order, trace)
            &&& forall|w: u64|
                lookup(trace[0], w) == supplied(
                    start,
                    inputs.map_values(|m: BTreeMap<u64, String>| m@),
                    w,
                )
            &&& trace.last() == after
        }
    &&& bits.dom() == outputs.to_set()
    &&& forall|w: u64| #[trigger]
        bits.contains_key(w) ==> {
            &&& gates.contains_key(w)
            &&& after.contains_key(w)
            &&& bit_of(gates[w], after[w]@) == Some(bits[w])
        }
}

/// Why a gate stops the walk with the error `e`: `UnknownWire` where a wire
/// it reads has no label; else `ArityMismatch` where an XOR gate does not
/// read two wires or another gate none; else `CorruptGarbling`, for an XOR
/// gate where a label does not decode or the XOR of the two is neither of
/// its own labels, and for any other gate whenever no row opened to one of
/// its own labels.
pub open spec fn fails_at(g: GarbledGate, labels: Map<u64, String>, e: ProtocolError) -> bool {
    let unknown = exists|k: int|
        0 <= k < g.input_wire_ids@.len() && !labels.contains_key(#[trigger] g.input_wire_ids@[k]);
    let ins = known_inputs(g, labels);
    match e {
        ProtocolError::UnknownWire => unknown,
        ProtocolError::ArityMismatch => !unknown && if g.operation == GateType::XOR {
            ins.len() != 2
        } else {
            ins.len() == 0
        },
        ProtocolError::CorruptGarbling => !unknown && if g.operation == GateType::XOR {
            ins.len() == 2 && (url_safe_decode(ins[0]) is None || url_safe_decode(ins[1]) is None
                || bit_of(g, xor_label(ins)) is None)
        } else {
            ins.len() >= 1
        },
        _ => false,
    }
}

/// `trace` records a walk that ends in the error `e`: either it stops at a
/// gate of the order, for the reason that [`fails_at`] gives, or it passes
/// every wire and a wanted wire has no garbled gate on the way, which gives
/// `UnknownWire`.
pub open spec fn halts(
    gates: Map<u64, GarbledGate>,
    order: Seq<u64>,
    outputs: Seq<u64>,
    trace: Seq<Map<u64, String>>,
    e: ProtocolError,
) -> bool {
    let at = trace.len() - 1;
    &&& 1 <= trace.len() <= order.len() + 1
    &&& forall|i: int| 0 <= i < at ==> step(gates, #[trigger] order[i], trace[i], trace[i + 1])
    &&& if at < order.len() {
        gates.contains_key(order[at]) && fails_at(gates[order[at]], trace[at], e)
    } else {
        e == ProtocolError::UnknownWire && exists|k: int|
            0 <= k < outputs.len() && !(gates.contains_key(#[trigger] outputs[k])
                && order.contains(outputs[k]))
    }
}

/// What follows from evaluating a gate: the label with its bit where the
/// label is one of the two of its gate, `CorruptGarbling` where it is not;
/// a gate that was given another number of labels than it reads gives
/// `ArityMismatch`, and any other failure `CorruptGarbling`.
pub open spec fn outcome_of(g: GarbledGate, evaluated: Result<String, ProtocolError>) -> Result<
    (String, bool),
    ProtocolError,
> {
    match evaluated {
        Ok(label) => match bit_of(g, label@) {
            Some(bit) => Ok((label, bit)),
            None => Err(ProtocolError::CorruptGarbling),
        },
        Err(ProtocolError::ArityMismatch) => Err(ProtocolError::ArityMismatch),
        Err(_) => Err(ProtocolError::CorruptGarbling),
    }
}

/// Settles what evaluating a gate gave: the label and its bit, or the error
/// of the run.
pub fn gate_outcome(g: &GarbledGate, evaluated: Result<String, ProtocolError>) -> (r: Result<
    (String, bool),
    ProtocolError,
>)
    ensures
        r == outcome_of(*g, evaluated),
{
    match evaluated {
        Ok(label) => match label_bit(g, &label) {
            Some(bit) => Ok((label, bit)),
            None => Err(ProtocolError::CorruptGarbling),
        },
        Err(ProtocolError::ArityMismatch) => Err(ProtocolError::ArityMismatch),
        Err(_) => Err(ProtocolError::CorruptGarbling),
    }
}

/// In a walk over wires of which only `w` has a garbled gate, only the step
/// at `w` counts.
pub proof fn lemma_walk_of_one_gate(
    gates: Map<u64, GarbledGate>,
    order: Seq<u64>,
    start: Map<u64, Seq<char>>,
    w: u64,
    upto: nat,
)
    requires
        upto <= order.len(),
        order.no_duplicates(),
        forall|v: u64| gates.contains_key(v) ==> v == w,
    ensures
        sure_walk(gates, order, start, upto) == if order.take(upto as int).contains(w) {
            sure_step(gates, w, start)
        } else {
            Some(Ok::<Map<u64, Seq<char>>, ProtocolError>(start))
        },
    decreases upto,
{
    if upto > 0 {
        lemma_walk_of_one_gate(gates, order, start, w, (upto - 1) as nat);
        let done = order.take(upto - 1);
        let more = order.take(upto as int);
        assert(more =~= done.push(order[upto - 1]));
        if done.contains(w) {
            let at = choose|at: int| 0 <= at < done.len() && done[at] == w;
            assert(order[at] == w);
            assert(more[at] == w);
            assert(order[upto - 1] != w);
        } else if order[upto - 1] == w {
            assert(more[upto - 1] == w);
        } else {
            if more.contains(w) {
                let at = choose|at: int| 0 <= at < more.len() && more[at] == w;
                assert(done[at] == w);
            }
        }
    }
}

/// Once the walk is not sure of labels, it stays as it is.
proof fn lemma_sure_walk_sticks(
    gates: Map<u64, GarbledGate>,
    order: Seq<u64>,
    start: Map<u64, Seq<char>>,
    at: nat,
    upto: nat,
)
    requires
        at <= upto,
        !(sure_walk(gates, order, start, at) matches Some(Ok(_))),
    ensures
        sure_walk(gates, order, start, upto) == sure_walk(gates, order, start, at),
    decreases upto,
{
    if at < upto {
        lemma_sure_walk_sticks(gates, order, start, at, (upto - 1) as nat);
    }
}

/// Some party supplies a label for a wire that has no label pair.
pub open spec fn supplies_unknown(
    inputs: Seq<BTreeMap<u64, String>>,
    keys: Map<u64, (String, String)>,
) -> bool {
    exists|p: int, w: u64|
        0 <= p < inputs.len() && #[trigger] inputs[p]@.contains_key(w) && !keys.contains_key(w)
}

/// Some party supplies a label that is neither of the two of its wire.
pub open spec fn supplies_foreign(
    inputs: Seq<BTreeMap<u64, String>>,
    keys: Map<u64, (String, String)>,
) -> bool {
    exists|p: int, w: u64|
        0 <= p < inputs.len() && #[trigger] inputs[p]@.contains_key(w) && keys.contains_key(w)
            && inputs[p]@[w]@ != keys[w].0@ && inputs[p]@[w]@ != keys[w].1@
}

/// Looks for what is wrong with the supplied labels: first for a wire
/// without a label pair, then for a label that is none of its wire.
fn check_supply(inputs: &Vec<BTreeMap<u64, String>>, keys: &BTreeMap<u64, (String, String)>) -> (r:
    Option<ProtocolError>)
    ensures
        r == if supplies_unknown(inputs@, keys@) {
            Some(ProtocolError::UnknownWire)
        } else if supplies_foreign(inputs@, keys@) {
            Some(ProtocolError::LabelMismatch)
        } else {
            None
        },
{
    broadcast use vstd::std_specs::btree::group_btree_axioms;

    let mut foreign: bool = false;
    let mut p: usize = 0;
    while p < inputs.len()
        invariant
            p <= inputs.len(),
            forall|q: int, w: u64|
                0 <= q < p && #[trigger] inputs[q]@.contains_key(w) ==> keys@.contains_key(w),
            foreign ==> supplies_foreign(inputs@, keys@),
            !foreign ==> forall|q: int, w: u64|
                0 <= q < p && #[trigger] inputs[q]@.contains_key(w) ==> inputs[q]@[w]@
                    == keys@[w].0@ || inputs[q]@[w]@ == keys@[w].1@,
        decreases inputs.len() - p,
    {
        let party = &inputs[p];
        let wires = wires_of(party);
        let mut k: usize = 0;
        while k < wires.len()
            invariant
                k <= wires.len(),
                p < inputs.len(),
                *party == inputs@[p as int],
                wires@.to_set() == party@.dom(),
                forall|j: int| 0 <= j < k ==> keys@.contains_key(#[trigger] wires@[j]),
                foreign ==> supplies_foreign(inputs@, keys@),
                !foreign ==> forall|q: int, w: u64|
                    0 <= q < p && #[trigger] inputs[q]@.contains_key(w) ==> inputs[q]@[w]@
                        == keys@[w].0@ || inputs[q]@[w]@ == keys@[w].1@,
                !foreign ==> forall|j: int|
                    0 <= j < k ==> party@[#[trigger] wires@[j]]@ == keys@[wires@[j]].0@
                        || party@[wires@[j]]@ == keys@[wires@[j]].1@,
            decreases wires.len() - k,
        {
            let wire_id: u64 = wires[k];
            assert(wires@.to_set().contains(wire_id));
            assert(inputs[p as int]@.contains_key(wire_id));
            match (party.get(&wire_id), keys.get(&wire_id)) {
                (Some(value), Some(pair)) => {
                    if !(pair.0 == *value || pair.1 == *value) {
                        foreign = true;
                    }
                },
                _ => {
                    return Some(ProtocolError::UnknownWire);
                },
            }
            k += 1;
        }
        proof {
            assert forall|w: u64| #[trigger] inputs[p as int]@.contains_key(w) implies keys@.contains_key(
                w,
            ) && (!foreign ==> inputs[p as int]@[w]@ == keys@[w].0@ || inputs[p as int]@[w]@
                == keys@[w].1@) by {
                assert(wires@.to_set().contains(w));
                let j = choose|j: int| 0 <= j < wires@.len() && wires@[j] == w;
                assert(keys@.contains_key(wires@[j]));
            }
        }
        p += 1;
    }
    if foreign {
        Some(ProtocolError::LabelMismatch)
    } else {
        None
    }
}

/// Holds what the evaluating party has: the netlist, the wires whose bits
/// are wanted, the label pairs and the garbled gates, and the labels that it
/// has recovered.
pub struct Evaluator {
    circuit: Circuit,
    outputs: Vec<u64>,
    wire_to_keys: BTreeMap<u64, (String, String)>,
    gates: BTreeMap<u64, GarbledGate>,
    computed: BTreeMap<u64, String>,
}

impl Evaluator {
    /// The netlist.
    pub closed spec fn netlist(self) -> Netlist {
        self.circuit@
    }

    /// The netlist as the map that holds it; the order of its keys decides
    /// the order of the walk.
    pub closed spec fn circuit(self) -> Circuit {
        self.circuit
    }

    /// The wires whose bits are wanted.
    pub closed spec fn outputs(self) -> Seq<u64> {
        self.outputs@
    }

    /// The label pairs of the wires.
    pub closed spec fn keys(self) -> Map<u64, (String, String)> {
        self.wire_to_keys@
    }

    /// The garbled gates.
    pub closed spec fn gates(self) -> Map<u64, GarbledGate> {
        self.gates@
    }

    /// The labels recovered so far.
    pub closed spec fn computed(self) -> Map<u64, String> {
        self.computed@
    }

    /// An evaluator that has recovered nothing yet.
    pub fn new(
        circuit: Circuit,
        outputs: Vec<u64>,
        wire_to_keys: BTreeMap<u64, (String, String)>,
        gates: BTreeMap<u64, GarbledGate>,
    ) -> (r: Self)
        ensures
            r.circuit() == circuit,
            r.netlist() == circuit@,
            r.outputs() == outputs@,
            r.keys() == wire_to_keys@,
            r.gates() == gates@,
            r.computed() == Map::<u64, String>::empty(),
    {
        Self { circuit, outputs, wire_to_keys, gates, computed: BTreeMap::new() }
    }

    /// Tries to open one row with the key of the input labels. What comes
    /// out, if anything does and it is text, is what the row carries.
    fn try_decrypt(&self, inputs: &Vec<String>, garbled_output: &String) -> (r: Option<String>)
        requires
            inputs.len() >= 1,
        ensures
            r matches Some(label) ==> fernet_open(row_key(texts(inputs@)), garbled_output@) == Some(
                encode_utf8(label@),
            ),
    {
        broadcast use vstd::utf8::decode_utf8_encode_utf8;

        let key = derive_row_key(inputs);
        recovered_text(fernet_unseal(key.as_str(), garbled_output.as_str()))
    }

    /// Recovers the output label of one gate from its input labels. An XOR
    /// gate needs no table: its output label is the XOR of the two inputs.
    /// For any other gate the rows are tried in order, and the first that
    /// opens gives the label.
    ///
    /// Fails with `ArityMismatch` exactly when an XOR gate is not given two
    /// labels or another gate none, with `LabelMismatch` exactly when an
    /// input of an XOR gate is not base64 text, and with `CorruptGarbling`
    /// when no row opens, as it must where no row carries a text for the key
    /// of the labels.
    pub fn evaluate_garbled_gate(&self, garbled_gate: &GarbledGate, inputs: Vec<String>) -> (r:
        Result<String, ProtocolError>)
        ensures
            r matches Ok(label) ==> yields(*garbled_gate, texts(inputs@), label@),
            garbled_gate.operation == GateType::XOR ==> (r is Ok <==> inputs.len() == 2
                && url_safe_decode(inputs[0]@) is Some && url_safe_decode(inputs[1]@) is Some),
            r == Err::<String, ProtocolError>(ProtocolError::ArityMismatch) <==> (if garbled_gate.operation
                == GateType::XOR {
                inputs.len() != 2
            } else {
                inputs.len() == 0
            }),
            r == Err::<String, ProtocolError>(ProtocolError::LabelMismatch) <==> (
            garbled_gate.operation == GateType::XOR && inputs.len() == 2 && !(url_safe_decode(
                inputs[0]@,
            ) is Some && url_safe_decode(inputs[1]@) is Some)),
            garbled_gate.operation != GateType::XOR && inputs.len() >= 1 && (forall|
                label: Seq<char>,
            |
                !#[trigger] carries(garbled_gate.table@, row_key(texts(inputs@)), label)) ==> r
                == Err::<String, ProtocolError>(ProtocolError::CorruptGarbling),
            r matches Err(e) ==> match e {
                ProtocolError::ArityMismatch => if garbled_gate.operation == GateType::XOR {
                    inputs.len() != 2
                } else {
                    inputs.len() == 0
                },
                ProtocolError::LabelMismatch => garbled_gate.operation == GateType::XOR
                    && inputs.len() == 2 && !(url_safe_decode(inputs[0]@) is Some
                    && url_safe_decode(inputs[1]@) is Some),
                ProtocolError::CorruptGarbling => garbled_gate.operation != GateType::XOR
                    && inputs.len() >= 1,
                _ => false,
            },
    {
        if garbled_gate.operation == GateType::XOR {
            if inputs.len() != 2 {
                return Err(ProtocolError::ArityMismatch);
            }
            let a = match base64_decode(inputs[0].as_str()) {
                Some(b) => b,
                None => {
                    return Err(ProtocolError::LabelMismatch);
                },
            };
            let b = match base64_decode(inputs[1].as_str()) {
                Some(b) => b,
                None => {
                    return Err(ProtocolError::LabelMismatch);
                },
            };
            let result_bytes = bytes_xor(&a, &b);
            return Ok(base64_encode(result_bytes.as_slice()));
        }
        if inputs.len() == 0 {
            return Err(ProtocolError::ArityMismatch);
        }
        let mut i: usize = 0;
        while i < garbled_gate.table.len()
            invariant
                i <= garbled_gate.table.len(),
                inputs.len() >= 1,
                garbled_gate.operation != GateType::XOR,
            decreases garbled_gate.table.len() - i,
        {
            match self.try_decrypt(&inputs, &garbled_gate.table[i]) {
                Some(decrypted_output) => {
                    assert(fernet_open(row_key(texts(inputs@)), garbled_gate.table@[i as int]@)
                        == Some(encode_utf8(decrypted_output@)));
                    assert(carries(
                        garbled_gate.table@,
                        row_key(texts(inputs@)),
                        decrypted_output@,
                    ));
                    return Ok(decrypted_output);
                },
                None => {},
            }
            i += 1;
        }
        Err(ProtocolError::CorruptGarbling)
    }

    /// Evaluates the garbled netlist. `inputs` holds, for each party, the
    /// label of each of its input wires.
    ///
    /// Every supplied label must be one of the two of its wire. The wires
    /// are then walked in topological order; at each garbled gate the labels
    /// of the wires it reads give the label of its output, which must be one
    /// of the two that its gate knows. The result has, for each wanted wire,
    /// the bit that its label stands for.
    ///
    /// Fails with `CycleDetected` exactly when the netlist has a cycle.
    /// Otherwise a supplied wire without a label pair gives `UnknownWire`,
    /// and if there is none, a supplied label that is not one of the two of
    /// its wire gives `LabelMismatch`, and nothing else does. Then the walk
    /// stops at the first gate that fails, for the reason that [`fails_at`]
    /// gives: a gate that reads a wire without a label gives `UnknownWire`,
    /// one that reads another number of wires than it can `ArityMismatch`,
    /// and one whose rows all stay shut, or whose label is none of its two,
    /// `CorruptGarbling`; a wanted wire that no garbled gate drives gives
    /// `UnknownWire` at the end. A run that fails leaves the recovered
    /// labels as they were.
    ///
    /// Where no attempt to open a row decides, the result is what
    /// [`sure_run`] says: a walk over XOR gates alone succeeds or fails by
    /// its labels only, and a gate of which no row carries one of its two
    /// labels for the labels it reads always fails.
    #[verifier::loop_isolation(false)]
    pub fn run(&mut self, inputs: Vec<BTreeMap<u64, String>>) -> (r: Result<
        BTreeMap<u64, bool>,
        ProtocolError,
    >)
        ensures
            final(self).circuit() == old(self).circuit(),
            final(self).netlist() == old(self).netlist(),
            final(self).outputs() == old(self).outputs(),
            final(self).keys() == old(self).keys(),
            final(self).gates() == old(self).gates(),
            keys_increase(&old(self).circuit()),
            acyclic(old(self).netlist()) ==> is_topological(
                old(self).netlist(),
                topo_order(&old(self).circuit()),
            ),
            r == Err::<BTreeMap<u64, bool>, ProtocolError>(ProtocolError::CycleDetected)
                <==> !acyclic(old(self).netlist()),
            acyclic(old(self).netlist()) && supplies_unknown(inputs@, old(self).keys()) ==> r
                == Err::<BTreeMap<u64, bool>, ProtocolError>(ProtocolError::UnknownWire),
            r == Err::<BTreeMap<u64, bool>, ProtocolError>(ProtocolError::LabelMismatch)
                <==> acyclic(old(self).netlist()) && !supplies_unknown(inputs@, old(self).keys())
                && supplies_foreign(inputs@, old(self).keys()),
            sure_run(
                old(self).netlist(),
                topo_order(&old(self).circuit()),
                old(self).keys(),
                old(self).gates(),
                old(self).outputs(),
                old(self).computed(),
                inputs@,
            ) matches Some(sure) ==> match sure {
                Ok(bits) => r is Ok && r->Ok_0@ == bits,
                Err(e) => r == Err::<BTreeMap<u64, bool>, ProtocolError>(e),
            },
            r matches Err(e) ==> e != ProtocolError::OTAbort && final(self).computed() == old(
                self,
            ).computed(),
            r matches Err(e) ==> (acyclic(old(self).netlist()) && !supplies_unknown(
                inputs@,
                old(self).keys(),
            ) && !supplies_foreign(inputs@, old(self).keys()) ==> exists|
                trace: Seq<Map<u64, String>>,
            |
                {
                    &&& #[trigger] halts(
                        old(self).gates(),
                        topo_order(&old(self).circuit()),
                        old(self).outputs(),
                        trace,
                        e,
                    )
                    &&& forall|w: u64|
                        lookup(trace[0], w) == supplied(
                            old(self).computed(),
                            inputs@.map_values(|m: BTreeMap<u64, String>| m@),
                            w,
                        )
                }),
            r matches Ok(bits) ==> ran_well(
                old(self).gates(),
                topo_order(&old(self).circuit()),
                old(self).outputs(),
                old(self).computed(),
                inputs@,
                final(self).computed(),
                bits@,
            ),
    {
        broadcast use vstd::std_specs::btree::group_btree_axioms;

        let order = match topo_sort_wires(&self.circuit) {
            Ok(order) => order,
            Err(e) => {
                return Err(e);
            },
        };
        match check_supply(&inputs, &self.wire_to_keys) {
            Some(e) => {
                return Err(e);
            },
            None => {},
        }
        let ghost start = self.computed@;
        let mut computed = self.computed.clone();
        let ghost parties = inputs@.map_values(|m: BTreeMap<u64, String>| m@);
        let mut p: usize = 0;
        assert(parties.take(0) =~= Seq::<Map<u64, String>>::empty());
        while p < inputs.len()
            invariant
                p <= inputs.len(),
                parties == inputs@.map_values(|m: BTreeMap<u64, String>| m@),
                forall|w: u64| lookup(computed@, w) == supplied(start, parties.take(p as int), w),
            decreases inputs.len() - p,
        {
            let party = &inputs[p];
            let wires = wires_of(party);
            let ghost earlier = computed@;
            let mut k: usize = 0;
            while k < wires.len()
                invariant
                    k <= wires.len(),
                    p < inputs.len(),
                    *party == inputs@[p as int],
                    wires@.to_set() == party@.dom(),
                    forall|w: u64|
                        lookup(computed@, w) == if wires@.take(k as int).contains(w) {
                            Some(party@[w])
                        } else {
                            lookup(earlier, w)
                        },
                decreases wires.len() - k,
            {
                let wire_id: u64 = wires[k];
                assert(wires@.to_set().contains(wire_id));
                let ghost known = computed@;
                if let Some(value) = party.get(&wire_id) {
                    computed.insert(wire_id, value.clone());
                }
                proof {
                    assert(computed@ == known.insert(wire_id, party@[wire_id]));
                    let done = wires@.take(k as int);
                    let more = wires@.take(k as int + 1);
                    assert(more =~= done.push(wire_id));
                    assert forall|w: u64| more.contains(w) <==> done.contains(w) || w
                        == wire_id by {
                        if done.contains(w) {
                            let at = choose|at: int| 0 <= at < done.len() && done[at] == w;
                            assert(more[at] == w);
                        }
                        if w == wire_id {
                            assert(more[k as int] == w);
                        }
                    }
                    assert forall|w: u64|
                        lookup(computed@, w) == if more.contains(w) {
                            Some(party@[w])
                        } else {
                            lookup(earlier, w)
                        } by {
                        assert(lookup(known, w) == if done.contains(w) {
                            Some(party@[w])
                        } else {
                            lookup(earlier, w)
                        });
                    }
                }
                k += 1;
            }
            proof {
                assert(wires@.take(k as int) =~= wires@);
                let now = parties.take(p as int + 1);
                assert(now.drop_last() =~= parties.take(p as int));
                assert(now.last() == party@);
                assert forall|w: u64| lookup(computed@, w) == supplied(start, now, w) by {
                    assert(wires@.contains(w) <==> wires@.to_set().contains(w));
                }
            }
            p += 1;
        }
        assert(parties.take(p as int) =~= parties);
        let ghost mut trace: Seq<Map<u64, String>> = seq![computed@];
        let ghost first = texts_of(computed@);
        proof {
            assert(first =~= Map::new(
                |w: u64| supplied(start, parties, w) is Some,
                |w: u64| supplied(start, parties, w)->0@,
            )) by {
                assert forall|w: u64| lookup(computed@, w) == supplied(start, parties, w) by {}
            }
        }
        let mut wire_to_value: BTreeMap<u64, bool> = BTreeMap::new();
        let mut i: usize = 0;
        while i < order.len()
            invariant
                i <= order.len(),
                is_topological(self.circuit@, order@),
                sure_walk(self.gates@, order@, first, i as nat) is None || sure_walk(
                    self.gates@,
                    order@,
                    first,
                    i as nat,
                ) == Some(Ok::<Map<u64, Seq<char>>, ProtocolError>(texts_of(computed@))),
                trace.len() == i + 1,
                forall|w: u64| lookup(trace[0], w) == supplied(start, parties, w),
                trace.last() == computed@,
                forall|j: int|
                    0 <= j < i ==> step(self.gates@, #[trigger] order@[j], trace[j], trace[j + 1]),
                forall|w: u64| #[trigger]
                    wire_to_value@.contains_key(w) <==> self.gates@.contains_key(w)
                        && order@.take(i as int).contains(w),
                forall|w: u64| #[trigger]
                    wire_to_value@.contains_key(w) ==> computed@.contains_key(w) && bit_of(
                        self.gates@[w],
                        computed@[w]@,
                    ) == Some(wire_to_value@[w]),
            decreases order.len() - i,
        {
            let wire: u64 = order[i];
            let ghost labels = computed@;
            let ghost sure = sure_walk(self.gates@, order@, first, i as nat);
            let ghost next = sure_walk(self.gates@, order@, first, (i + 1) as nat);
            proof {
                if sure is Some {
                    assert(next == sure_step(self.gates@, wire, texts_of(labels)));
                } else {
                    assert(next is None);
                }
            }
            match self.gates.get(&wire) {
                None => {
                    proof {
                        trace = trace.push(labels);
                    }
                },
                Some(garbled_gate) => {
                    let mut gate_inputs: Vec<String> = Vec::new();
                    let mut k: usize = 0;
                    while k < garbled_gate.input_wire_ids.len()
                        invariant
                            k <= garbled_gate.input_wire_ids.len(),
                            gate_inputs.len() == k,
                            computed@ == labels,
                            forall|j: int|
                                0 <= j < k ==> labels.contains_key(
                                    #[trigger] garbled_gate.input_wire_ids@[j],
                                ) && gate_inputs@[j]@ == labels[garbled_gate.input_wire_ids@[j]]@,
                        decreases garbled_gate.input_wire_ids.len() - k,
                    {
                        match computed.get(&garbled_gate.input_wire_ids[k]) {
                            Some(label) => {
                                gate_inputs.push(label.clone());
                            },
                            None => {
                                proof {
                                    assert(!texts_of(labels).contains_key(
                                        garbled_gate.input_wire_ids@[k as int],
                                    ));
                                    lemma_sure_walk_sticks(
                                        self.gates@,
                                        order@,
                                        first,
                                        (i + 1) as nat,
                                        order@.len(),
                                    );
                                    assert(fails_at(
                                        *garbled_gate,
                                        labels,
                                        ProtocolError::UnknownWire,
                                    ));
                                    assert(halts(
                                        self.gates@,
                                        order@,
                                        self.outputs@,
                                        trace,
                                        ProtocolError::UnknownWire,
                                    ));
                                }
                                return Err(ProtocolError::UnknownWire);
                            },
                        }
                        k += 1;
                    }
                    assert(texts(gate_inputs@) =~= known_inputs(*garbled_gate, labels));
                    let ghost ins = garbled_gate.input_wire_ids@.map_values(
                        |v: u64| texts_of(labels)[v],
                    );
                    assert(texts(gate_inputs@) =~= ins);
                    let evaluated = self.evaluate_garbled_gate(garbled_gate, gate_inputs);
                    let (result, bit) = match gate_outcome(garbled_gate, evaluated) {
                        Ok(pair) => pair,
                        Err(e) => {
                            proof {
                                lemma_sure_walk_sticks(
                                    self.gates@,
                                    order@,
                                    first,
                                    (i + 1) as nat,
                                    order@.len(),
                                );
                                assert(fails_at(*garbled_gate, labels, e));
                                assert(halts(self.gates@, order@, self.outputs@, trace, e));
                            }
                            return Err(e);
                        },
                    };
                    proof {
                        if garbled_gate.operation == GateType::XOR {
                            assert(result@ == xor_label(ins));
                        } else {
                            assert(carries(garbled_gate.table@, row_key(ins), result@));
                        }
                    }
                    computed.insert(wire, result);
                    wire_to_value.insert(wire, bit);
                    proof {
                        trace = trace.push(computed@);
                        assert(texts_of(computed@) =~= texts_of(labels).insert(wire, result@));
                    }
                },
            }
            proof {
                let done = order@.take(i as int);
                let more = order@.take(i as int + 1);
                assert(more =~= done.push(wire));
                assert forall|w: u64| more.contains(w) <==> done.contains(w) || w == wire by {
                    if done.contains(w) {
                        let at = choose|at: int| 0 <= at < done.len() && done[at] == w;
                        assert(more[at] == w);
                    }
                    if w == wire {
                        assert(more[i as int] == w);
                    }
                }
                assert(!done.contains(wire)) by {
                    if done.contains(wire) {
                        let at = choose|at: int| 0 <= at < done.len() && done[at] == wire;
                        assert(order@[at] == order@[i as int]);
                    }
                }
            }
            i += 1;
        }
        assert(order@.take(i as int) =~= order@);
        let mut bits: BTreeMap<u64, bool> = BTreeMap::new();
        let mut o: usize = 0;
        while o < self.outputs.len()
            invariant
                o <= self.outputs.len(),
                bits@.dom() == self.outputs@.take(o as int).to_set(),
                forall|w: u64| #[trigger]
                    bits@.contains_key(w) ==> wire_to_value@.contains_key(w) && bits@[w]
                        == wire_to_value@[w],
            decreases self.outputs.len() - o,
        {
            let output_wire: u64 = self.outputs[o];
            match wire_to_value.get(&output_wire) {
                Some(bit) => {
                    bits.insert(output_wire, *bit);
                },
                None => {
                    proof {
                        assert(!(self.gates@.contains_key(self.outputs@[o as int])
                            && order@.contains(self.outputs@[o as int])));
                        assert(halts(
                            self.gates@,
                            order@,
                            self.outputs@,
                            trace,
                            ProtocolError::UnknownWire,
                        ));
                    }
                    return Err(ProtocolError::UnknownWire);
                },
            }
            proof {
                let done = self.outputs@.take(o as int);
                let more = self.outputs@.take(o as int + 1);
                assert(more =~= done.push(output_wire));
                assert(more.to_set() =~= done.to_set().insert(output_wire)) by {
                    assert forall|w: u64| more.contains(w) <==> done.contains(w) || w
                        == output_wire by {
                        if done.contains(w) {
                            let at = choose|at: int| 0 <= at < done.len() && done[at] == w;
                            assert(more[at] == w);
                        }
                        if w == output_wire {
                            assert(more[o as int] == w);
                        }
                    }
                }
            }
            o += 1;
        }
        proof {
            assert(self.outputs@.take(o as int) =~= self.outputs@);
            assert(is_walk(self.gates@, order@, trace));
            assert forall|w: u64| old(self).outputs().contains(w) implies order@.contains(w) by {
                assert(self.outputs@.to_set().contains(w));
                assert(bits@.contains_key(w));
            }
            let sure = sure_walk(self.gates@, order@, first, order@.len());
            if sure is Some {
                let known = texts_of(computed@);
                assert forall|k: int| 0 <= k < self.outputs@.len() implies self.gates@.contains_key(
                    #[trigger] self.outputs@[k],
                ) && order@.contains(self.outputs@[k]) by {
                    assert(self.outputs@.to_set().contains(self.outputs@[k]));
                    assert(bits@.contains_key(self.outputs@[k]));
                }
                assert(bits@ =~= Map::new(
                    |w: u64| self.outputs@.contains(w),
                    |w: u64| bit_of(self.gates@[w], known[w])->0,
                )) by {
                    assert forall|w: u64| bits@.contains_key(w) <==> self.outputs@.contains(w) by {
                        assert(self.outputs@.to_set().contains(w) <==> self.outputs@.contains(w));
                    }
                }
            }
        }
        self.computed = computed;
        Ok(bits)
    }
}

/// The text that the bytes out of a row stand for: nothing where the row
/// stayed shut, and nothing where the bytes are no UTF-8.
pub open spec fn text_of(opened: Option<Seq<u8>>) -> Option<Seq<char>> {
    match opened {
        Some(bytes) => if valid_utf8(bytes) {
            Some(decode_utf8(bytes))
        } else {
            None
        },
        None => None,
    }
}

/// What an attempt to open a row has recovered, as text: the bytes that
/// came out, read as UTF-8. A row that stayed shut gives nothing, and so do
/// bytes that are no text.
pub fn recovered_text(opened: Option<Vec<u8>>) -> (r: Option<String>)
    ensures
        match opened {
            Some(bytes) => match r {
                Some(label) => text_of(Some(bytes@)) == Some(label@),
                None => text_of(Some(bytes@)) is None,
            },
            None => r is None,
        },
{
    match opened {
        Some(bytes) => utf8_text(bytes.as_slice()),
        None => None,
    }
}

} // verus!
