//! What the garbler and the evaluator achieve together: the labels that the
//! evaluator recovers stand for the bits that the netlist computes.
use crate::evaluator::{
    bit_of, is_walk, known_inputs, lookup, ran_well, step, supplied, supplies_foreign,
    supplies_unknown, sure_run, sure_step, sure_walk, xor_label, yields,
};
use crate::error::ProtocolError;
use crate::garbler::{carries, garbling, in_pairs, input_labels, pick, GarbledGate};
use crate::netlist::{acyclic, is_topological, mentions, reads, Netlist};
use crate::primitives::{fernet_open, url_safe_decode, url_safe_encode};
use crate::utils::{
    canonical, is_label, label_bytes, nonzero, offset_pair, row_key, xor_bytes, GateType,
    LABEL_LEN,
};
use std::collections::BTreeMap;
use vstd::prelude::*;
use vstd::utf8::encode_utf8;

verus! {

/// The bit on input `k` of the driver of `w`; a gate with fewer
/// inputs reads 0 there, which its truth table ignores.
pub open spec fn input_bit(c: Netlist, vals: Map<u64, bool>, w: u64, k: int) -> bool {
    if 0 <= k < c[w].1@.len() {
        vals[c[w].1@[k]]
    } else {
        false
    }
}

/// The assignment gives every wire that a gate drives the bit that the
/// gate's truth table computes from the bits of the wires it reads. The bits
/// of the other wires, the inputs of the netlist, are free.
pub open spec fn satisfies(c: Netlist, vals: Map<u64, bool>) -> bool {
    forall|w: u64|
        #[trigger] c.contains_key(w) && c[w].0 != GateType::INPUT ==> vals[w] == c[w].0.output(
            input_bit(c, vals, w, 0),
            input_bit(c, vals, w, 1),
        )
}

/// The wire is read by a gate and driven by none: an input of the netlist.
pub open spec fn is_source(c: Netlist, w: u64) -> bool {
    (exists|g: u64| reads(c, g, w) && c[g].0 != GateType::INPUT) && !(c.contains_key(w) && c[w].0
        != GateType::INPUT)
}

/// Whatever a row of a table gives under the key of some combination of
/// input bits is the output label for that combination. The garbler writes
/// one such row for each combination; that the other rows stay shut under
/// that key is what the authentication tag of the encryption is for.
pub open spec fn authentic(
    c: Netlist,
    keys: Map<u64, (String, String)>,
    gates: Map<u64, GarbledGate>,
) -> bool {
    forall|w: u64, a: bool, b: bool, i: int|
        gates.contains_key(w) && c[w].0 != GateType::XOR && 0 <= i < gates[w].table@.len() && (
        #[trigger] fernet_open(
            row_key(input_labels(in_pairs(c, keys, w), a, b)),
            gates[w].table@[i]@,
        )) is Some ==> fernet_open(
            row_key(input_labels(in_pairs(c, keys, w), a, b)),
            gates[w].table@[i]@,
        ) == Some(encode_utf8(pick(keys[w], c[w].0.output(a, b))))
}

/// The wire has the label that stands for its bit.
pub open spec fn labelled_right(
    keys: Map<u64, (String, String)>,
    vals: Map<u64, bool>,
    labels: Map<u64, String>,
    w: u64,
) -> bool {
    labels.contains_key(w) && labels[w]@ == pick(keys[w], vals[w])
}

/// After garbling, the two labels of every wire differ by the offset: their
/// XOR is the offset itself.
pub proof fn lemma_delta_offset(
    c: Netlist,
    delta: Seq<char>,
    keys: Map<u64, (String, String)>,
    gates: Map<u64, GarbledGate>,
    w: u64,
)
    requires
        garbling(c, delta, keys, gates),
        keys.contains_key(w),
    ensures
        is_label(keys[w].0@),
        is_label(keys[w].1@),
        xor_bytes(label_bytes(keys[w].1@)->0, label_bytes(keys[w].0@)->0) == label_bytes(delta)->0,
{
    let l0 = label_bytes(keys[w].0@)->0;
    let l1 = label_bytes(keys[w].1@)->0;
    let d = label_bytes(delta)->0;
    assert(offset_pair(keys[w].0@, keys[w].1@, delta));
    assert forall|i: int| 0 <= i < LABEL_LEN implies (l0[i] ^ d[i]) ^ l0[i] == d[i] by {
        let x = l0[i];
        let y = d[i];
        assert((x ^ y) ^ x == y) by (bit_vector);
    }
    assert(xor_bytes(l1, l0) =~= d);
}

/// After garbling, an XOR gate has no table, and its output label for 0 is
/// the XOR of its inputs' labels for 0.
pub proof fn lemma_xor_gates_are_free(
    c: Netlist,
    delta: Seq<char>,
    keys: Map<u64, (String, String)>,
    gates: Map<u64, GarbledGate>,
    w: u64,
)
    requires
        garbling(c, delta, keys, gates),
        c.contains_key(w),
        c[w].0 == GateType::XOR,
    ensures
        gates.contains_key(w),
        gates[w].table@.len() == 0,
        c[w].1@.len() == 2,
        label_bytes(keys[w].0@) == Some(
            xor_bytes(label_bytes(keys[c[w].1@[0]].0@)->0, label_bytes(keys[c[w].1@[1]].0@)->0),
        ),
{
    assert(c.contains_key(w) && c[w].0 != GateType::INPUT);
    assert(gates[w].garbles(in_pairs(c, keys, w)));
}

/// After garbling, a gate with two inputs that is not an XOR gate has four
/// rows, and a gate with one input has two.
pub proof fn lemma_table_sizes(
    c: Netlist,
    delta: Seq<char>,
    keys: Map<u64, (String, String)>,
    gates: Map<u64, GarbledGate>,
    w: u64,
)
    requires
        garbling(c, delta, keys, gates),
        c.contains_key(w),
        c[w].0 != GateType::INPUT,
        c[w].0 != GateType::XOR,
    ensures
        gates.contains_key(w),
        c[w].1@.len() == c[w].0.fan_in(),
        c[w].0.fan_in() == 2 ==> gates[w].table@.len() == 4,
        c[w].0.fan_in() == 1 ==> gates[w].table@.len() == 2,
{
    assert(c.contains_key(w) && c[w].0 != GateType::INPUT);
    assert(gates[w].garbles(in_pairs(c, keys, w)));
}

/// With an offset that is not zero the two labels of a pair are different.
pub proof fn lemma_labels_differ(zero: Seq<char>, one: Seq<char>, delta: Seq<char>)
    requires
        offset_pair(zero, one, delta),
        nonzero(delta),
    ensures
        zero != one,
{
    if zero == one {
        let b = label_bytes(zero)->0;
        let d = label_bytes(delta)->0;
        let i = choose|i: int| 0 <= i < LABEL_LEN && #[trigger] label_bytes(delta)->0[i] != 0;
        assert(b[i] == xor_bytes(b, d)[i]);
        let x = b[i];
        let y = d[i];
        assert(x == x ^ y ==> y == 0) by (bit_vector);
    }
}

/// The XOR of the labels that stand for `a` and `b` on two wires is the
/// label that stands for `a != b` on a wire whose label for 0 is the XOR of
/// their labels for 0.
proof fn lemma_free_xor(
    in0: (String, String),
    in1: (String, String),
    out: (String, String),
    delta: Seq<char>,
    a: bool,
    b: bool,
)
    requires
        offset_pair(in0.0@, in0.1@, delta),
        offset_pair(in1.0@, in1.1@, delta),
        offset_pair(out.0@, out.1@, delta),
        label_bytes(out.0@) == Some(xor_bytes(label_bytes(in0.0@)->0, label_bytes(in1.0@)->0)),
    ensures
        url_safe_decode(pick(in0, a)) is Some,
        url_safe_decode(pick(in1, b)) is Some,
        url_safe_encode(
            xor_bytes(url_safe_decode(pick(in0, a))->0, url_safe_decode(pick(in1, b))->0),
        ) == pick(out, a != b),
{
    let a0 = label_bytes(in0.0@)->0;
    let b0 = label_bytes(in1.0@)->0;
    let d = label_bytes(delta)->0;
    let x = url_safe_decode(pick(in0, a))->0;
    let y = url_safe_decode(pick(in1, b))->0;
    let want = url_safe_decode(pick(out, a != b))->0;
    assert(x.len() == LABEL_LEN && y.len() == LABEL_LEN && want.len() == LABEL_LEN);
    assert forall|i: int| 0 <= i < LABEL_LEN implies (x[i] ^ y[i]) == want[i] by {
        let p = a0[i];
        let q = b0[i];
        let r = d[i];
        assert((p ^ r) ^ q == (p ^ q) ^ r) by (bit_vector);
        assert(p ^ (q ^ r) == (p ^ q) ^ r) by (bit_vector);
        assert((p ^ r) ^ (q ^ r) == p ^ q) by (bit_vector);
    }
    assert(xor_bytes(x, y) =~= want);
}

/// Two texts with the same UTF-8 bytes are the same text.
proof fn lemma_utf8_is_injective(s: Seq<char>, t: Seq<char>)
    requires
        encode_utf8(s) == encode_utf8(t),
    ensures
        s == t,
{
    vstd::utf8::encode_utf8_decode_utf8(s);
    vstd::utf8::encode_utf8_decode_utf8(t);
}

/// One step of the walk keeps every wire labelled right that was, and labels
/// the wire of the step right if the wires that its gate reads were.
proof fn lemma_step_is_correct(
    c: Netlist,
    delta: Seq<char>,
    keys: Map<u64, (String, String)>,
    gates: Map<u64, GarbledGate>,
    vals: Map<u64, bool>,
    w: u64,
    before: Map<u64, String>,
    after: Map<u64, String>,
)
    requires
        garbling(c, delta, keys, gates),
        nonzero(delta),
        authentic(c, keys, gates),
        satisfies(c, vals),
        step(gates, w, before, after),
        gates.contains_key(w),
        forall|v: u64| reads(c, w, v) ==> labelled_right(keys, vals, before, v),
    ensures
        labelled_right(keys, vals, after, w),
        bit_of(gates[w], after[w]@) == Some(vals[w]),
{
    assert(c.contains_key(w) && c[w].0 != GateType::INPUT);
    let g = gates[w];
    let pairs = in_pairs(c, keys, w);
    let ins = c[w].1@;
    assert(g.garbles(pairs));
    let a = input_bit(c, vals, w, 0);
    let b = input_bit(c, vals, w, 1);
    assert(vals[w] == c[w].0.output(a, b));
    assert(reads(c, w, ins[0]));
    assert(labelled_right(keys, vals, before, ins[0]));
    if ins.len() == 2 {
        assert(reads(c, w, ins[1]));
        assert(labelled_right(keys, vals, before, ins[1]));
    }
    assert(known_inputs(g, before) =~= input_labels(pairs, a, b));
    assert(offset_pair(keys[w].0@, keys[w].1@, delta));
    lemma_labels_differ(keys[w].0@, keys[w].1@, delta);
    let out = after[w]@;
    if c[w].0 == GateType::XOR {
        assert(keys.contains_key(ins[0]) && keys.contains_key(ins[1]));
        lemma_free_xor(pairs[0], pairs[1], keys[w], delta, a, b);
        assert(out == pick(keys[w], a != b));
    } else {
        let key = row_key(input_labels(pairs, a, b));
        let i = choose|i: int|
            0 <= i < g.table@.len() && #[trigger] fernet_open(key, g.table@[i]@) == Some(
                encode_utf8(out),
            );
        assert(fernet_open(key, g.table@[i]@) is Some);
        lemma_utf8_is_injective(out, pick(keys[w], c[w].0.output(a, b)));
    }
}

/// Evaluation is correct. Take a netlist that was garbled, with an offset
/// that is not zero and tables whose rows open only to what they were
/// written for, and an assignment of bits that agrees with its gates. If the
/// walk starts with the right label on every input of the netlist, it ends
/// with the right label on every gate, and the bit read off that label is the
/// bit of the assignment.
pub proof fn theorem_evaluation_is_correct(
    c: Netlist,
    delta: Seq<char>,
    keys: Map<u64, (String, String)>,
    gates: Map<u64, GarbledGate>,
    vals: Map<u64, bool>,
    order: Seq<u64>,
    trace: Seq<Map<u64, String>>,
)
    requires
        garbling(c, delta, keys, gates),
        nonzero(delta),
        authentic(c, keys, gates),
        satisfies(c, vals),
        is_topological(c, order),
        is_walk(gates, order, trace),
        forall|w: u64| is_source(c, w) ==> labelled_right(keys, vals, trace[0], w),
    ensures
        forall|w: u64|
            #[trigger] gates.contains_key(w) ==> labelled_right(keys, vals, trace.last(), w)
                && bit_of(gates[w], trace.last()[w]@) == Some(vals[w]),
{
    lemma_walk_is_correct(c, delta, keys, gates, vals, order, trace, order.len() as int);
    assert forall|w: u64| #[trigger] gates.contains_key(w) implies labelled_right(
        keys,
        vals,
        trace.last(),
        w,
    ) && bit_of(gates[w], trace.last()[w]@) == Some(vals[w]) by {
        assert(c.contains_key(w) && c[w].0 != GateType::INPUT);
        assert(mentions(c, w));
        assert(order.contains(w));
        let j = choose|j: int| 0 <= j < order.len() && order[j] == w;
        assert(gates.contains_key(order[j]));
    }
}

/// The state of the walk after `upto` steps: sources and the gates passed so
/// far are labelled right.
proof fn lemma_walk_is_correct(
    c: Netlist,
    delta: Seq<char>,
    keys: Map<u64, (String, String)>,
    gates: Map<u64, GarbledGate>,
    vals: Map<u64, bool>,
    order: Seq<u64>,
    trace: Seq<Map<u64, String>>,
    upto: int,
)
    requires
        garbling(c, delta, keys, gates),
        nonzero(delta),
        authentic(c, keys, gates),
        satisfies(c, vals),
        is_topological(c, order),
        is_walk(gates, order, trace),
        forall|w: u64| is_source(c, w) ==> labelled_right(keys, vals, trace[0], w),
        0 <= upto <= order.len(),
    ensures
        forall|w: u64| is_source(c, w) ==> labelled_right(keys, vals, trace[upto], w),
        forall|j: int|
            0 <= j < upto && gates.contains_key(#[trigger] order[j]) ==> labelled_right(
                keys,
                vals,
                trace[upto],
                order[j],
            ) && bit_of(gates[order[j]], trace[upto][order[j]]@) == Some(vals[order[j]]),
    decreases upto,
{
    if upto > 0 {
        lemma_walk_is_correct(c, delta, keys, gates, vals, order, trace, upto - 1);
        let w = order[upto - 1];
        let before = trace[upto - 1];
        let after = trace[upto];
        assert(step(gates, order[upto - 1], trace[upto - 1], trace[upto - 1 + 1]));
        if gates.contains_key(w) {
            assert(c.contains_key(w) && c[w].0 != GateType::INPUT);
            assert forall|v: u64| reads(c, w, v) implies labelled_right(keys, vals, before, v) by {
                if c.contains_key(v) && c[v].0 != GateType::INPUT {
                    assert(reads(c, order[upto - 1], v));
                    let j = choose|j: int| 0 <= j < upto - 1 && order[j] == v;
                    assert(gates.contains_key(order[j]));
                } else {
                    assert(is_source(c, v));
                }
            }
            lemma_step_is_correct(c, delta, keys, gates, vals, w, before, after);
            assert forall|v: u64| is_source(c, v) implies labelled_right(
                keys,
                vals,
                after,
                v,
            ) by {
                assert(labelled_right(keys, vals, before, v));
                assert(v != w);
            }
            assert forall|j: int|
                0 <= j < upto && gates.contains_key(#[trigger] order[j]) implies labelled_right(
                keys,
                vals,
                after,
                order[j],
            ) && bit_of(gates[order[j]], after[order[j]]@) == Some(vals[order[j]]) by {
                if j < upto - 1 {
                    assert(order[j] != w);
                    assert(labelled_right(keys, vals, before, order[j]));
                }
            }
        }
    }
}

/// A run gives the bits that the netlist computes. Under the conditions
/// of the theorem above, if the parties supply the right label for every
/// input of the netlist, every bit that is read off the labels at the end of
/// the walk is the bit of the assignment.
pub proof fn theorem_run_is_correct(
    c: Netlist,
    delta: Seq<char>,
    keys: Map<u64, (String, String)>,
    gates: Map<u64, GarbledGate>,
    vals: Map<u64, bool>,
    start: Map<u64, String>,
    inputs: Seq<Map<u64, String>>,
    order: Seq<u64>,
    trace: Seq<Map<u64, String>>,
    bits: Map<u64, bool>,
)
    requires
        garbling(c, delta, keys, gates),
        nonzero(delta),
        authentic(c, keys, gates),
        satisfies(c, vals),
        is_topological(c, order),
        is_walk(gates, order, trace),
        forall|w: u64| lookup(trace[0], w) == supplied(start, inputs, w),
        forall|w: u64|
            is_source(c, w) ==> supplied(start, inputs, w) is Some && supplied(
                start,
                inputs,
                w,
            )->0@ == pick(keys[w], vals[w]),
        forall|w: u64| #[trigger]
            bits.contains_key(w) ==> gates.contains_key(w) && bit_of(gates[w], trace.last()[w]@)
                == Some(bits[w]),
    ensures
        forall|w: u64| #[trigger] bits.contains_key(w) ==> bits[w] == vals[w],
{
    assert forall|w: u64| is_source(c, w) implies labelled_right(keys, vals, trace[0], w) by {
        assert(lookup(trace[0], w) == supplied(start, inputs, w));
    }
    theorem_evaluation_is_correct(c, delta, keys, gates, vals, order, trace);
    assert forall|w: u64| #[trigger] bits.contains_key(w) implies bits[w] == vals[w] by {
        assert(gates.contains_key(w));
    }
}

/// A run that succeeds gives the bits that the netlist computes: under the
/// conditions of the theorem above, what [`ran_well`] says of a run is
/// enough for every bit of the result to be the bit of the assignment.
pub proof fn theorem_ok_run_is_correct(
    c: Netlist,
    delta: Seq<char>,
    keys: Map<u64, (String, String)>,
    gates: Map<u64, GarbledGate>,
    vals: Map<u64, bool>,
    order: Seq<u64>,
    outputs: Seq<u64>,
    start: Map<u64, String>,
    inputs: Seq<BTreeMap<u64, String>>,
    after: Map<u64, String>,
    bits: Map<u64, bool>,
)
    requires
        garbling(c, delta, keys, gates),
        nonzero(delta),
        authentic(c, keys, gates),
        satisfies(c, vals),
        is_topological(c, order),
        ran_well(gates, order, outputs, start, inputs, after, bits),
        forall|w: u64| #[trigger]
            is_source(c, w) ==> supplied(
                start,
                inputs.map_values(|m: BTreeMap<u64, String>| m@),
                w,
            ) is Some && supplied(start, inputs.map_values(|m: BTreeMap<u64, String>| m@), w)->0@
                == pick(keys[w], vals[w]),
    ensures
        bits.dom() == outputs.to_set(),
        forall|w: u64| outputs.contains(w) ==> bits[w] == vals[w],
{
    let parties = inputs.map_values(|m: BTreeMap<u64, String>| m@);
    let trace = choose|trace: Seq<Map<u64, String>>|
        {
            &&& #[trigger] is_walk(gates, order, trace)
            &&& forall|w: u64| lookup(trace[0], w) == supplied(start, parties, w)
            &&& trace.last() == after
        };
    theorem_run_is_correct(c, delta, keys, gates, vals, start, parties, order, trace, bits);
    assert forall|w: u64| outputs.contains(w) implies bits[w] == vals[w] by {
        assert(outputs.to_set().contains(w));
        assert(bits.contains_key(w));
    }
}

/// Every gate of the netlist is an XOR gate.
pub open spec fn xor_only(c: Netlist) -> bool {
    forall|w: u64| #[trigger] c.contains_key(w) && c[w].0 != GateType::INPUT ==> c[w].0 == GateType::XOR
}

/// The inputs of the netlist, and the gates among the first `upto` wires of
/// the order, have the label that stands for their bit.
pub open spec fn labelled_upto(
    c: Netlist,
    keys: Map<u64, (String, String)>,
    gates: Map<u64, GarbledGate>,
    vals: Map<u64, bool>,
    order: Seq<u64>,
    labels: Map<u64, Seq<char>>,
    upto: int,
) -> bool {
    &&& forall|w: u64| #[trigger]
        is_source(c, w) ==> labels.contains_key(w) && labels[w] == pick(keys[w], vals[w])
    &&& forall|j: int|
        0 <= j < upto && gates.contains_key(#[trigger] order[j]) ==> labels.contains_key(order[j])
            && labels[order[j]] == pick(keys[order[j]], vals[order[j]])
}

/// A walk over XOR gates alone is sure of its labels, and they are the
/// right ones.
proof fn lemma_free_xor_walk(
    c: Netlist,
    delta: Seq<char>,
    keys: Map<u64, (String, String)>,
    gates: Map<u64, GarbledGate>,
    vals: Map<u64, bool>,
    order: Seq<u64>,
    first: Map<u64, Seq<char>>,
    upto: nat,
)
    requires
        garbling(c, delta, keys, gates),
        nonzero(delta),
        satisfies(c, vals),
        xor_only(c),
        is_topological(c, order),
        upto <= order.len(),
        forall|w: u64| #[trigger]
            is_source(c, w) ==> first.contains_key(w) && first[w] == pick(keys[w], vals[w]),
    ensures
        sure_walk(gates, order, first, upto) matches Some(Ok(labels)) && labelled_upto(
            c,
            keys,
            gates,
            vals,
            order,
            labels,
            upto as int,
        ),
    decreases upto,
{
    if upto > 0 {
        lemma_free_xor_walk(c, delta, keys, gates, vals, order, first, (upto - 1) as nat);
        let before = sure_walk(gates, order, first, (upto - 1) as nat)->Some_0->Ok_0;
        let w = order[upto - 1];
        if gates.contains_key(w) {
            assert(c.contains_key(w) && c[w].0 != GateType::INPUT);
            let g = gates[w];
            let ids = g.input_wire_ids@;
            let pairs = in_pairs(c, keys, w);
            assert(g.garbles(pairs));
            assert(ids.len() == 2);
            assert forall|k: int| 0 <= k < ids.len() implies before.contains_key(
                #[trigger] ids[k],
            ) && before[ids[k]] == pick(keys[ids[k]], vals[ids[k]]) && keys.contains_key(ids[k]) by {
                let v = ids[k];
                assert(reads(c, w, v));
                if c.contains_key(v) && c[v].0 != GateType::INPUT {
                    let j = choose|j: int| 0 <= j < upto - 1 && order[j] == v;
                    assert(gates.contains_key(order[j]));
                } else {
                    assert(is_source(c, v));
                }
            }
            let ins = ids.map_values(|v: u64| before[v]);
            let a = vals[ids[0]];
            let b = vals[ids[1]];
            assert(ins[0] == pick(pairs[0], a));
            assert(ins[1] == pick(pairs[1], b));
            assert(offset_pair(keys[w].0@, keys[w].1@, delta));
            assert(offset_pair(keys[ids[0]].0@, keys[ids[0]].1@, delta));
            assert(offset_pair(keys[ids[1]].0@, keys[ids[1]].1@, delta));
            lemma_free_xor(pairs[0], pairs[1], keys[w], delta, a, b);
            lemma_labels_differ(keys[w].0@, keys[w].1@, delta);
            assert(input_bit(c, vals, w, 0) == a && input_bit(c, vals, w, 1) == b);
            assert(vals[w] == (a != b));
            assert(xor_label(ins) == pick(keys[w], vals[w]));
            assert(bit_of(g, xor_label(ins)) == Some(vals[w]));
            let after = before.insert(w, xor_label(ins));
            assert(sure_step(gates, w, before) == Some(
                Ok::<Map<u64, Seq<char>>, ProtocolError>(after),
            ));
            assert forall|j: int| 0 <= j < upto && gates.contains_key(
                #[trigger] order[j],
            ) implies after.contains_key(order[j]) && after[order[j]] == pick(
                keys[order[j]],
                vals[order[j]],
            ) by {
                if j < upto - 1 {
                    assert(order[j] != w);
                }
            }
            assert(labelled_upto(c, keys, gates, vals, order, after, upto as int));
        } else {
            assert(sure_step(gates, w, before) == Some(
                Ok::<Map<u64, Seq<char>>, ProtocolError>(before),
            ));
            assert(labelled_upto(c, keys, gates, vals, order, before, upto as int));
        }
    } else {
        assert(labelled_upto(c, keys, gates, vals, order, first, 0));
    }
}

/// A garbled netlist of XOR gates alone is evaluated without opening a row:
/// if the offset is not zero, the parties supply labels of the wires they
/// name, with the right label on every input of the netlist, and every
/// wanted wire is driven by a gate, then a run that walks the wires in a
/// topological order is sure to give, for every wanted wire, the bit that
/// the netlist computes.
pub proof fn theorem_free_xor_run_is_correct(
    c: Netlist,
    order: Seq<u64>,
    delta: Seq<char>,
    keys: Map<u64, (String, String)>,
    gates: Map<u64, GarbledGate>,
    outputs: Seq<u64>,
    start: Map<u64, String>,
    inputs: Seq<BTreeMap<u64, String>>,
    vals: Map<u64, bool>,
)
    requires
        is_topological(c, order),
        garbling(c, delta, keys, gates),
        nonzero(delta),
        satisfies(c, vals),
        xor_only(c),
        !supplies_unknown(inputs, keys),
        !supplies_foreign(inputs, keys),
        forall|w: u64| #[trigger]
            is_source(c, w) ==> supplied(
                start,
                inputs.map_values(|m: BTreeMap<u64, String>| m@),
                w,
            ) is Some && supplied(start, inputs.map_values(|m: BTreeMap<u64, String>| m@), w)->0@
                == pick(keys[w], vals[w]),
        forall|k: int|
            0 <= k < outputs.len() ==> c.contains_key(#[trigger] outputs[k]) && c[outputs[k]].0
                != GateType::INPUT,
    ensures
        sure_run(c, order, keys, gates, outputs, start, inputs) matches Some(Ok(bits))
            && bits.dom() =~= outputs.to_set() && forall|w: u64|
            outputs.contains(w) ==> bits[w] == vals[w],
{
    let parties = inputs.map_values(|m: BTreeMap<u64, String>| m@);
    let first = Map::new(
        |w: u64| supplied(start, parties, w) is Some,
        |w: u64| supplied(start, parties, w)->0@,
    );
    assert(acyclic(c));
    lemma_free_xor_walk(c, delta, keys, gates, vals, order, first, order.len());
    let labels = sure_walk(gates, order, first, order.len())->Some_0->Ok_0;
    assert forall|k: int| 0 <= k < outputs.len() implies gates.contains_key(
        #[trigger] outputs[k],
    ) && order.contains(outputs[k]) by {
        assert(mentions(c, outputs[k]));
    }
    let bits = Map::new(|w: u64| outputs.contains(w), |w: u64| bit_of(gates[w], labels[w])->0);
    assert(sure_run(c, order, keys, gates, outputs, start, inputs) == Some(
        Ok::<Map<u64, bool>, ProtocolError>(bits),
    ));
    assert forall|w: u64| outputs.contains(w) implies bits[w] == vals[w] by {
        let k = choose|k: int| 0 <= k < outputs.len() && outputs[k] == w;
        assert(gates.contains_key(outputs[k]));
        let j = choose|j: int| 0 <= j < order.len() && order[j] == w;
        assert(gates.contains_key(order[j]));
        assert(offset_pair(keys[w].0@, keys[w].1@, delta));
        lemma_labels_differ(keys[w].0@, keys[w].1@, delta);
    }
    assert(bits.dom() =~= outputs.to_set());
}

/// Two assignments give the wire the same bit.
pub open spec fn agree_on(vals: Map<u64, bool>, other: Map<u64, bool>, w: u64) -> bool {
    vals[w] == other[w]
}

/// The bits of the inputs decide the bits of all wires: two assignments
/// that agree with the gates of an acyclic netlist, and with each other on
/// every wire that no gate drives, agree on every wire of the netlist.
pub proof fn lemma_inputs_decide(
    c: Netlist,
    order: Seq<u64>,
    vals: Map<u64, bool>,
    other: Map<u64, bool>,
    upto: int,
)
    requires
        is_topological(c, order),
        satisfies(c, vals),
        satisfies(c, other),
        forall|w: u64|
            !(c.contains_key(w) && c[w].0 != GateType::INPUT) ==> #[trigger] agree_on(
                vals,
                other,
                w,
            ),
        0 <= upto <= order.len(),
    ensures
        forall|j: int| 0 <= j < upto ==> agree_on(vals, other, #[trigger] order[j]),
    decreases upto,
{
    if upto > 0 {
        lemma_inputs_decide(c, order, vals, other, upto - 1);
        let w = order[upto - 1];
        if c.contains_key(w) && c[w].0 != GateType::INPUT {
            let ins = c[w].1@;
            if ins.len() >= 1 {
                assert(reads(c, order[upto - 1], ins[0]));
                let j = choose|j: int| 0 <= j < upto - 1 && order[j] == ins[0];
                assert(agree_on(vals, other, order[j]));
            }
            if ins.len() >= 2 {
                assert(reads(c, order[upto - 1], ins[1]));
                let j = choose|j: int| 0 <= j < upto - 1 && order[j] == ins[1];
                assert(agree_on(vals, other, order[j]));
            }
            assert(input_bit(c, vals, w, 0) == input_bit(c, other, w, 0));
            assert(input_bit(c, vals, w, 1) == input_bit(c, other, w, 1));
            assert(agree_on(vals, other, w));
        } else {
            assert(agree_on(vals, other, w));
        }
    }
}

/// The bit of wire `w` after the first `upto` wires of `order` are
/// settled: a wire has the bit that `env` gives it until its turn comes, and
/// a wire that a gate drives then gets the bit of its truth table.
pub open spec fn settled(c: Netlist, order: Seq<u64>, env: Map<u64, bool>, upto: int, w: u64) -> bool
    decreases upto,
{
    if upto <= 0 || upto > order.len() {
        env[w]
    } else if order[upto - 1] == w && c.contains_key(w) && c[w].0 != GateType::INPUT {
        c[w].0.output(
            if c[w].1@.len() >= 1 {
                settled(c, order, env, upto - 1, c[w].1@[0])
            } else {
                false
            },
            if c[w].1@.len() >= 2 {
                settled(c, order, env, upto - 1, c[w].1@[1])
            } else {
                false
            },
        )
    } else {
        settled(c, order, env, upto - 1, w)
    }
}

/// A wire keeps its bit while the wires that are settled are other wires.
proof fn lemma_settled_stays(
    c: Netlist,
    order: Seq<u64>,
    env: Map<u64, bool>,
    from: int,
    upto: int,
    w: u64,
)
    requires
        0 <= from <= upto <= order.len(),
        forall|j: int| from <= j < upto ==> order[j] != w,
    ensures
        settled(c, order, env, upto, w) == settled(c, order, env, from, w),
    decreases upto - from,
{
    if from < upto {
        lemma_settled_stays(c, order, env, from, upto - 1, w);
    }
}

/// Every assignment of bits to the inputs of an acyclic netlist extends to
/// an assignment that agrees with its gates: the bits of the netlist are
/// there for every input. The wires that no gate drives keep the bits they
/// were given.
pub proof fn lemma_assignment_exists(c: Netlist, order: Seq<u64>, env: Map<u64, bool>) -> (vals:
    Map<u64, bool>)
    requires
        is_topological(c, order),
    ensures
        satisfies(c, vals),
        forall|w: u64|
            !(c.contains_key(w) && c[w].0 != GateType::INPUT) ==> #[trigger] agree_on(vals, env, w),
{
    let n = order.len() as int;
    let vals = Map::new(|w: u64| true, |w: u64| settled(c, order, env, n, w));
    assert forall|w: u64|
        !(c.contains_key(w) && c[w].0 != GateType::INPUT) implies #[trigger] agree_on(
        vals,
        env,
        w,
    ) by {
        lemma_leaf_keeps_bit(c, order, env, n, w);
    }
    assert forall|w: u64| #[trigger] c.contains_key(w) && c[w].0 != GateType::INPUT implies vals[w]
        == c[w].0.output(input_bit(c, vals, w, 0), input_bit(c, vals, w, 1)) by {
        assert(mentions(c, w));
        assert(order.contains(w));
        let at = choose|at: int| 0 <= at < order.len() && order[at] == w;
        assert forall|j: int| at + 1 <= j < n implies order[j] != w by {}
        lemma_settled_stays(c, order, env, at + 1, n, w);
        let ins = c[w].1@;
        if ins.len() >= 1 {
            lemma_input_is_settled(c, order, env, at, 0);
        }
        if ins.len() >= 2 {
            lemma_input_is_settled(c, order, env, at, 1);
        }
    }
    vals
}

/// A wire that no gate drives keeps the bit it was given.
proof fn lemma_leaf_keeps_bit(c: Netlist, order: Seq<u64>, env: Map<u64, bool>, upto: int, w: u64)
    requires
        !(c.contains_key(w) && c[w].0 != GateType::INPUT),
    ensures
        settled(c, order, env, upto, w) == env[w],
    decreases upto,
{
    if 0 < upto <= order.len() {
        lemma_leaf_keeps_bit(c, order, env, upto - 1, w);
    }
}

/// When the turn of a gate comes, the wires that it reads have the bits
/// that they keep.
proof fn lemma_input_is_settled(c: Netlist, order: Seq<u64>, env: Map<u64, bool>, at: int, k: int)
    requires
        is_topological(c, order),
        0 <= at < order.len(),
        c.contains_key(order[at]),
        0 <= k < c[order[at]].1@.len(),
    ensures
        settled(c, order, env, at, c[order[at]].1@[k]) == settled(
            c,
            order,
            env,
            order.len() as int,
            c[order[at]].1@[k],
        ),
{
    let v = c[order[at]].1@[k];
    assert(reads(c, order[at], v));
    let j = choose|j: int| 0 <= j < at && order[j] == v;
    assert forall|i: int| at <= i < order.len() implies order[i] != v by {
        assert(order[j] == v);
    }
    lemma_settled_stays(c, order, env, at, order.len() as int, v);
}

} // verus!
