use garbled_circuit::error::ProtocolError;
use garbled_circuit::evaluator::{gate_outcome, label_bit, recovered_text, Evaluator};
use garbled_circuit::garbler::{GarbledGate, Garbler};
use garbled_circuit::ot::{Receiver, Sender};
use garbled_circuit::protocol::{select_labels, transfer_labels};
use base64::engine::general_purpose::URL_SAFE;
use base64::Engine;
use garbled_circuit::utils::{
    bytes_xor, decode_label, decrypt, derive_row_key, generate_keys, wire_values, Circuit,
    GateType,
};
use std::collections::BTreeMap;

type Keys = BTreeMap<u64, (String, String)>;
type Gates = BTreeMap<u64, GarbledGate>;

fn fresh_delta() -> String {
    generate_keys(&String::from("AAAAAAAAAAAAAAAAAAAAAAAAAAAAAAAAAAAAAAAAAAA="))
        .unwrap()
        .0
}

fn parties(a: &[u64], b: &[u64]) -> Vec<(String, Vec<u64>)> {
    vec![(String::from("a"), a.to_vec()), (String::from("b"), b.to_vec())]
}

fn outs(o: &[u64]) -> Vec<(String, Vec<u64>)> {
    vec![(String::from("out"), o.to_vec())]
}

/// wires 0 and 1 are the inputs of the two parties, wire 2 is `kind(0, 1)`
fn two_input(kind: GateType) -> Circuit {
    let mut c: Circuit = BTreeMap::new();
    c.insert(0, (GateType::INPUT, vec![]));
    c.insert(1, (GateType::INPUT, vec![]));
    c.insert(2, (kind, vec![0, 1]));
    c
}

/// wire 0 is the input, wire 1 is `kind(0)`
fn one_input(kind: GateType) -> Circuit {
    let mut c: Circuit = BTreeMap::new();
    c.insert(0, (GateType::INPUT, vec![]));
    c.insert(1, (kind, vec![0]));
    c
}

fn garble(c: &Circuit, a: &[u64], b: &[u64], o: &[u64]) -> (String, Keys, Gates) {
    let delta = fresh_delta();
    let mut g = Garbler::new(delta.clone(), c.clone(), parties(a, b), outs(o)).unwrap();
    let (keys, gates) = g.build().unwrap();
    (delta, keys, gates)
}

fn labels_for(keys: &Keys, wires: &[u64], value: u64) -> BTreeMap<u64, String> {
    select_labels(keys, &wire_values(&wires.to_vec(), value)).unwrap()
}

fn number(bits: &BTreeMap<u64, bool>, o: &[u64]) -> u64 {
    let mut n: u64 = 0;
    for (i, w) in o.iter().enumerate() {
        if bits[w] {
            n |= 1 << i;
        }
    }
    n
}

fn evaluate(c: &Circuit, a: &[u64], b: &[u64], o: &[u64], x: u64, y: u64) -> u64 {
    let (_, keys, gates) = garble(c, a, b, o);
    let mut e = Evaluator::new(c.clone(), o.to_vec(), keys.clone(), gates);
    let bits = e
        .run(vec![labels_for(&keys, a, x), labels_for(&keys, b, y)])
        .unwrap();
    number(&bits, o)
}

fn evaluate_with_transfer(c: &Circuit, a: &[u64], b: &[u64], o: &[u64], x: u64, y: u64) -> u64 {
    let (_, keys, gates) = garble(c, a, b, o);
    let alice = Sender::new();
    let mut bob = Receiver::new();
    let bob_labels =
        transfer_labels(&alice, &mut bob, &keys, &wire_values(&b.to_vec(), y)).unwrap();
    let mut e = Evaluator::new(c.clone(), o.to_vec(), keys.clone(), gates);
    let bits = e.run(vec![labels_for(&keys, a, x), bob_labels]).unwrap();
    number(&bits, o)
}

/// a ripple-carry adder: wires 0..n are `a`, n..2n are `b`, the sum bits
/// come back as the third list
fn adder(n: u64) -> (Circuit, Vec<u64>, Vec<u64>, Vec<u64>) {
    let mut c: Circuit = BTreeMap::new();
    let a: Vec<u64> = (0..n).collect();
    let b: Vec<u64> = (n..2 * n).collect();
    for w in 0..2 * n {
        c.insert(w, (GateType::INPUT, vec![]));
    }
    let mut next = 2 * n;
    let mut sums = Vec::new();
    let mut carry: Option<u64> = None;
    for i in 0..n as usize {
        let x = next;
        c.insert(x, (GateType::XOR, vec![a[i], b[i]]));
        next += 1;
        match carry {
            None => {
                sums.push(x);
                let g = next;
                c.insert(g, (GateType::AND, vec![a[i], b[i]]));
                next += 1;
                carry = Some(g);
            }
            Some(cin) => {
                let s = next;
                c.insert(s, (GateType::XOR, vec![x, cin]));
                next += 1;
                sums.push(s);
                let g = next;
                c.insert(g, (GateType::AND, vec![a[i], b[i]]));
                next += 1;
                let p = next;
                c.insert(p, (GateType::AND, vec![x, cin]));
                next += 1;
                let cout = next;
                c.insert(cout, (GateType::OR, vec![g, p]));
                next += 1;
                carry = Some(cout);
            }
        }
    }
    (c, a, b, sums)
}

fn truth(kind: GateType, a: bool, b: bool) -> bool {
    match kind {
        GateType::AND => a && b,
        GateType::OR => a || b,
        GateType::XOR => a != b,
        GateType::NAND => !(a && b),
        GateType::NOR => !(a || b),
        GateType::XNOR => a == b,
        GateType::ANDNOT => a && !b,
        GateType::ORNOT => a || !b,
        GateType::NOT => !a,
        GateType::CONST => a,
        GateType::CONST_0 => false,
        GateType::CONST_1 => true,
        GateType::INPUT => a,
    }
}

#[test]
fn garbler_new_refuses_bad_delta() {
    let c = two_input(GateType::AND);
    assert!(Garbler::new(String::from("nope"), c.clone(), parties(&[0], &[1]), outs(&[2])).is_none());
    assert!(Garbler::new(String::new(), c, vec![], vec![]).is_none());
}

#[test]
fn garbler_new_accepts_label_as_delta() {
    let c = two_input(GateType::AND);
    assert!(Garbler::new(fresh_delta(), c, parties(&[0], &[1]), outs(&[2])).is_some());
}

#[test]
fn switch_gate_follows_truth_tables() {
    let g = Garbler::new(fresh_delta(), BTreeMap::new(), vec![], vec![]).unwrap();
    assert!(g.switch_gate(GateType::ANDNOT, true, false));
    assert!(!g.switch_gate(GateType::ANDNOT, true, true));
    assert!(!g.switch_gate(GateType::ANDNOT, false, false));
    assert!(g.switch_gate(GateType::ORNOT, false, false));
    assert!(!g.switch_gate(GateType::ORNOT, false, true));
    assert!(g.switch_gate(GateType::XNOR, false, false));
    assert!(!g.switch_gate(GateType::XNOR, true, false));
    assert!(g.switch_gate(GateType::NAND, true, false));
    assert!(!g.switch_gate(GateType::NOR, true, false));
    assert!(g.switch_gate(GateType::CONST_1, false, false));
    assert!(!g.switch_gate(GateType::CONST_0, true, true));
    assert!(g.switch_gate(GateType::CONST, true, false));
    assert!(!g.switch_gate(GateType::NOT, true, true));
}

#[test]
fn every_wire_has_the_delta_offset() {
    let (c, a, b, sums) = adder(3);
    let (delta, keys, _) = garble(&c, &a, &b, &sums);
    let d = decode_label(&delta).unwrap();
    assert_eq!(keys.len(), c.len());
    for (_, pair) in keys.iter() {
        let l0 = decode_label(&pair.0).unwrap();
        let l1 = decode_label(&pair.1).unwrap();
        assert_eq!(bytes_xor(&l1, &l0), d);
        assert_ne!(pair.0, pair.1);
    }
}

#[test]
fn xor_gate_has_no_table() {
    let c = two_input(GateType::XOR);
    let (_, keys, gates) = garble(&c, &[0], &[1], &[2]);
    let g = &gates[&2];
    assert_eq!(g.operation, GateType::XOR);
    assert_eq!(g.table.len(), 0);
    assert_eq!(g.input_wire_ids, vec![0u64, 1]);
    let a0 = decode_label(&keys[&0].0).unwrap();
    let b0 = decode_label(&keys[&1].0).unwrap();
    assert_eq!(decode_label(&g.output_keys.0).unwrap(), bytes_xor(&a0, &b0));
    assert_eq!(g.output_keys, keys[&2]);
}

#[test]
fn tables_have_four_or_two_rows() {
    for kind in [
        GateType::AND,
        GateType::OR,
        GateType::NAND,
        GateType::NOR,
        GateType::XNOR,
        GateType::ANDNOT,
        GateType::ORNOT,
    ] {
        let c = two_input(kind);
        let (_, _, gates) = garble(&c, &[0], &[1], &[2]);
        assert_eq!(gates[&2].table.len(), 4);
        assert_eq!(gates.len(), 1);
    }
    for kind in [
        GateType::NOT,
        GateType::CONST,
        GateType::CONST_0,
        GateType::CONST_1,
    ] {
        let c = one_input(kind);
        let (_, _, gates) = garble(&c, &[0], &[], &[1]);
        assert_eq!(gates[&1].table.len(), 2);
    }
}

fn opening_row(gate: &GarbledGate, labels: Vec<String>) -> Vec<usize> {
    let key = derive_row_key(&labels);
    let mut hits = Vec::new();
    for (i, row) in gate.table.iter().enumerate() {
        if decrypt(key.clone(), row.clone()).is_some() {
            hits.push(i);
        }
    }
    hits
}

#[test]
fn each_key_opens_exactly_one_row() {
    let c = two_input(GateType::AND);
    let (_, keys, gates) = garble(&c, &[0], &[1], &[2]);
    let g = &gates[&2];
    let mut used = Vec::new();
    for a in [false, true] {
        for b in [false, true] {
            let la = if a { keys[&0].1.clone() } else { keys[&0].0.clone() };
            let lb = if b { keys[&1].1.clone() } else { keys[&1].0.clone() };
            let hits = opening_row(g, vec![la.clone(), lb.clone()]);
            assert_eq!(hits.len(), 1);
            let key = derive_row_key(&vec![la, lb]);
            let plain = decrypt(key, g.table[hits[0]].clone()).unwrap();
            let want = if a && b { &keys[&2].1 } else { &keys[&2].0 };
            assert_eq!(plain, want.as_bytes().to_vec());
            used.push(hits[0]);
        }
    }
    used.sort();
    assert_eq!(used, vec![0, 1, 2, 3]);
}

#[test]
fn rows_are_shuffled() {
    let c = two_input(GateType::AND);
    let mut places = Vec::new();
    for _ in 0..40 {
        let (_, keys, gates) = garble(&c, &[0], &[1], &[2]);
        let hits = opening_row(&gates[&2], vec![keys[&0].0.clone(), keys[&1].0.clone()]);
        assert_eq!(hits.len(), 1);
        places.push(hits[0]);
    }
    assert!(places.iter().any(|p| *p != places[0]));
}

#[test]
fn garbled_gates_compute_their_truth_tables() {
    for kind in [
        GateType::AND,
        GateType::OR,
        GateType::XOR,
        GateType::NAND,
        GateType::NOR,
        GateType::XNOR,
        GateType::ANDNOT,
        GateType::ORNOT,
    ] {
        let c = two_input(kind);
        for x in 0..2u64 {
            for y in 0..2u64 {
                let got = evaluate(&c, &[0], &[1], &[2], x, y);
                assert_eq!(got == 1, truth(kind, x == 1, y == 1));
            }
        }
    }
}

#[test]
fn garbled_unary_gates_compute_their_truth_tables() {
    for kind in [
        GateType::NOT,
        GateType::CONST,
        GateType::CONST_0,
        GateType::CONST_1,
    ] {
        let c = one_input(kind);
        for x in 0..2u64 {
            let got = evaluate(&c, &[0], &[], &[1], x, 0);
            assert_eq!(got == 1, truth(kind, x == 1, false));
        }
    }
}

#[test]
fn gate_may_read_one_wire_twice() {
    let mut c: Circuit = BTreeMap::new();
    c.insert(0, (GateType::INPUT, vec![]));
    c.insert(1, (GateType::AND, vec![0, 0]));
    c.insert(2, (GateType::XOR, vec![0, 0]));
    for x in 0..2u64 {
        let got = evaluate(&c, &[0], &[], &[1, 2], x, 0);
        assert_eq!(got, x);
    }
}

#[test]
fn scenario_xor_of_one_and_one() {
    let c = two_input(GateType::XOR);
    assert_eq!(evaluate(&c, &[0], &[1], &[2], 1, 1), 0);
    assert_eq!(evaluate_with_transfer(&c, &[0], &[1], &[2], 1, 1), 0);
}

#[test]
fn scenario_and_of_a_and_not_b() {
    let mut c: Circuit = BTreeMap::new();
    c.insert(0, (GateType::INPUT, vec![]));
    c.insert(1, (GateType::INPUT, vec![]));
    c.insert(2, (GateType::NOT, vec![1]));
    c.insert(3, (GateType::AND, vec![0, 2]));
    assert_eq!(evaluate(&c, &[0], &[1], &[3], 1, 0), 1);
    assert_eq!(evaluate(&c, &[0], &[1], &[3], 1, 1), 0);
    assert_eq!(evaluate_with_transfer(&c, &[0], &[1], &[3], 1, 0), 1);
}

#[test]
fn scenario_adder_999_plus_77() {
    let (c, a, b, sums) = adder(64);
    assert_eq!(evaluate(&c, &a, &b, &sums, 999, 77), 1076);
}

#[test]
fn scenario_adder_zero_plus_zero() {
    let (c, a, b, sums) = adder(64);
    assert_eq!(evaluate(&c, &a, &b, &sums, 0, 0), 0);
}

#[test]
fn scenario_adder_wraps() {
    let (c, a, b, sums) = adder(64);
    assert_eq!(evaluate(&c, &a, &b, &sums, 1 << 63, 1 << 63), 0);
}

#[test]
fn scenario_adder_max_plus_one() {
    let (c, a, b, sums) = adder(64);
    assert_eq!(evaluate(&c, &a, &b, &sums, u64::MAX, 1), 0);
}

#[test]
fn scenario_adder_with_transfer() {
    let (c, a, b, sums) = adder(64);
    assert_eq!(evaluate_with_transfer(&c, &a, &b, &sums, 999, 77), 1076);
}

#[test]
fn small_adder_is_correct_on_all_inputs() {
    let (c, a, b, sums) = adder(3);
    let (_, keys, gates) = garble(&c, &a, &b, &sums);
    for x in 0..8u64 {
        for y in 0..8u64 {
            let mut e = Evaluator::new(c.clone(), sums.clone(), keys.clone(), gates.clone());
            let bits = e
                .run(vec![labels_for(&keys, &a, x), labels_for(&keys, &b, y)])
                .unwrap();
            assert_eq!(number(&bits, &sums), (x + y) % 8);
        }
    }
}

#[test]
fn build_keeps_given_pairs_except_on_xor() {
    let mut c: Circuit = BTreeMap::new();
    c.insert(0, (GateType::INPUT, vec![]));
    c.insert(1, (GateType::INPUT, vec![]));
    c.insert(2, (GateType::AND, vec![0, 1]));
    c.insert(3, (GateType::XOR, vec![0, 1]));
    let delta = fresh_delta();
    let mut g = Garbler::new(delta, c, parties(&[0], &[1]), outs(&[2, 3])).unwrap();
    let (keys, gates) = g.build().unwrap();
    assert_eq!(gates[&2].output_keys, keys[&2]);
    assert_eq!(gates[&3].output_keys, keys[&3]);
    let (again, _) = g.build().unwrap();
    assert_eq!(again[&0], keys[&0]);
    assert_eq!(again[&1], keys[&1]);
    assert_eq!(again[&2], keys[&2]);
    assert_eq!(again[&3], keys[&3]);
}

#[test]
fn build_detects_cycle() {
    let mut c: Circuit = BTreeMap::new();
    c.insert(0, (GateType::INPUT, vec![]));
    c.insert(1, (GateType::AND, vec![0, 2]));
    c.insert(2, (GateType::NOT, vec![1]));
    let mut g = Garbler::new(fresh_delta(), c, parties(&[0], &[]), outs(&[2])).unwrap();
    assert!(matches!(g.build(), Err(ProtocolError::CycleDetected)));
}

#[test]
fn build_detects_unknown_wire() {
    // wire 7 is read but nothing drives it and no party lists it
    let mut c: Circuit = BTreeMap::new();
    c.insert(0, (GateType::INPUT, vec![]));
    c.insert(1, (GateType::AND, vec![0, 7]));
    let mut g = Garbler::new(fresh_delta(), c, parties(&[0], &[]), outs(&[1])).unwrap();
    assert!(matches!(g.build(), Err(ProtocolError::UnknownWire)));
    // an input wire that no party lists
    let c = two_input(GateType::OR);
    let mut g = Garbler::new(fresh_delta(), c, parties(&[0], &[]), outs(&[2])).unwrap();
    assert!(matches!(g.build(), Err(ProtocolError::UnknownWire)));
}

#[test]
fn build_detects_arity_mismatch() {
    let mut c: Circuit = BTreeMap::new();
    c.insert(0, (GateType::INPUT, vec![]));
    c.insert(1, (GateType::AND, vec![0]));
    let mut g = Garbler::new(fresh_delta(), c, parties(&[0], &[]), outs(&[1])).unwrap();
    assert!(matches!(g.build(), Err(ProtocolError::ArityMismatch)));
    let mut c: Circuit = BTreeMap::new();
    c.insert(0, (GateType::INPUT, vec![]));
    c.insert(1, (GateType::NOT, vec![0, 0]));
    let mut g = Garbler::new(fresh_delta(), c, parties(&[0], &[]), outs(&[1])).unwrap();
    assert!(matches!(g.build(), Err(ProtocolError::ArityMismatch)));
}

#[test]
fn build_of_inputs_only_garbles_nothing() {
    let mut c: Circuit = BTreeMap::new();
    c.insert(0, (GateType::INPUT, vec![]));
    let mut g = Garbler::new(fresh_delta(), c, parties(&[0], &[]), vec![]).unwrap();
    let (keys, gates) = g.build().unwrap();
    assert_eq!(keys.len(), 1);
    assert_eq!(gates.len(), 0);
}

#[test]
fn garble_gate_checks_arity_and_labels() {
    let delta = fresh_delta();
    let g = Garbler::new(delta.clone(), BTreeMap::new(), vec![], vec![]).unwrap();
    let a = generate_keys(&delta).unwrap();
    let b = generate_keys(&delta).unwrap();
    assert!(matches!(
        g.garble_gate(GateType::AND, &vec![a.clone()], None, vec![0]),
        Err(ProtocolError::ArityMismatch)
    ));
    assert!(matches!(
        g.garble_gate(GateType::NOT, &vec![a.clone(), b.clone()], None, vec![0, 1]),
        Err(ProtocolError::ArityMismatch)
    ));
    assert!(matches!(
        g.garble_gate(GateType::INPUT, &vec![], None, vec![]),
        Err(ProtocolError::ArityMismatch)
    ));
    assert!(matches!(
        g.garble_gate(GateType::AND, &vec![a.clone(), b.clone()], None, vec![0]),
        Err(ProtocolError::ArityMismatch)
    ));
    let bad = (String::from("no label"), String::from("no label either"));
    assert!(matches!(
        g.garble_gate(GateType::XOR, &vec![a.clone(), bad.clone()], None, vec![0, 1]),
        Err(ProtocolError::LabelMismatch)
    ));
    // any text keys a row of a gate with a table
    let gate = g
        .garble_gate(GateType::AND, &vec![a.clone(), bad], None, vec![0, 1])
        .unwrap();
    assert_eq!(gate.table.len(), 4);
}

#[test]
fn garble_gate_uses_given_output_pair() {
    let delta = fresh_delta();
    let g = Garbler::new(delta.clone(), BTreeMap::new(), vec![], vec![]).unwrap();
    let a = generate_keys(&delta).unwrap();
    let b = generate_keys(&delta).unwrap();
    let out = generate_keys(&delta).unwrap();
    let gate = g
        .garble_gate(GateType::OR, &vec![a.clone(), b.clone()], Some(out.clone()), vec![4, 5])
        .unwrap();
    assert_eq!(gate.output_keys, out);
    assert_eq!(gate.input_wire_ids, vec![4u64, 5]);
    assert_eq!(gate.operation, GateType::OR);
    let free = g
        .garble_gate(GateType::XOR, &vec![a, b], Some(out.clone()), vec![4, 5])
        .unwrap();
    assert_ne!(free.output_keys, out);
    let d = decode_label(&delta).unwrap();
    let y0 = decode_label(&free.output_keys.0).unwrap();
    let y1 = decode_label(&free.output_keys.1).unwrap();
    assert_eq!(bytes_xor(&y0, &d), y1);
}

#[test]
fn evaluate_garbled_gate_xor_is_symmetric() {
    let delta = fresh_delta();
    let g = Garbler::new(delta.clone(), BTreeMap::new(), vec![], vec![]).unwrap();
    let a = generate_keys(&delta).unwrap();
    let b = generate_keys(&delta).unwrap();
    let gate = g
        .garble_gate(GateType::XOR, &vec![a.clone(), b.clone()], None, vec![0, 1])
        .unwrap();
    let e = Evaluator::new(BTreeMap::new(), vec![], BTreeMap::new(), BTreeMap::new());
    assert_eq!(
        e.evaluate_garbled_gate(&gate, vec![a.0.clone(), b.0.clone()]),
        Ok(gate.output_keys.0.clone())
    );
    assert_eq!(
        e.evaluate_garbled_gate(&gate, vec![a.1.clone(), b.1.clone()]),
        Ok(gate.output_keys.0.clone())
    );
    assert_eq!(
        e.evaluate_garbled_gate(&gate, vec![a.1.clone(), b.0.clone()]),
        Ok(gate.output_keys.1.clone())
    );
    assert_eq!(
        e.evaluate_garbled_gate(&gate, vec![a.0.clone(), b.1.clone()]),
        Ok(gate.output_keys.1.clone())
    );
    assert_eq!(
        e.evaluate_garbled_gate(&gate, vec![a.0.clone()]),
        Err(ProtocolError::ArityMismatch)
    );
    assert_eq!(
        e.evaluate_garbled_gate(&gate, vec![a.0.clone(), String::from("%%%")]),
        Err(ProtocolError::LabelMismatch)
    );
}

#[test]
fn evaluate_garbled_gate_opens_the_right_row() {
    let delta = fresh_delta();
    let g = Garbler::new(delta.clone(), BTreeMap::new(), vec![], vec![]).unwrap();
    let a = generate_keys(&delta).unwrap();
    let b = generate_keys(&delta).unwrap();
    let gate = g
        .garble_gate(GateType::ANDNOT, &vec![a.clone(), b.clone()], None, vec![0, 1])
        .unwrap();
    let e = Evaluator::new(BTreeMap::new(), vec![], BTreeMap::new(), BTreeMap::new());
    assert_eq!(
        e.evaluate_garbled_gate(&gate, vec![a.1.clone(), b.0.clone()]),
        Ok(gate.output_keys.1.clone())
    );
    assert_eq!(
        e.evaluate_garbled_gate(&gate, vec![a.1.clone(), b.1.clone()]),
        Ok(gate.output_keys.0.clone())
    );
    // labels in the wrong order open nothing
    assert_eq!(
        e.evaluate_garbled_gate(&gate, vec![b.0.clone(), a.1.clone()]),
        Err(ProtocolError::CorruptGarbling)
    );
    assert_eq!(
        e.evaluate_garbled_gate(&gate, vec![]),
        Err(ProtocolError::ArityMismatch)
    );
}

#[test]
fn label_bit_reads_zero_one_or_nothing() {
    let delta = fresh_delta();
    let g = Garbler::new(delta.clone(), BTreeMap::new(), vec![], vec![]).unwrap();
    let a = generate_keys(&delta).unwrap();
    let gate = g.garble_gate(GateType::NOT, &vec![a.clone()], None, vec![0]).unwrap();
    assert_eq!(label_bit(&gate, &gate.output_keys.0), Some(false));
    assert_eq!(label_bit(&gate, &gate.output_keys.1), Some(true));
    assert_eq!(label_bit(&gate, &a.0), None);
}

#[test]
fn run_rejects_foreign_label() {
    let c = two_input(GateType::AND);
    let (_, keys, gates) = garble(&c, &[0], &[1], &[2]);
    let mut e = Evaluator::new(c, vec![2], keys.clone(), gates);
    let mut alice = BTreeMap::new();
    alice.insert(0u64, keys[&1].0.clone());
    let bob = labels_for(&keys, &[1], 1);
    assert_eq!(e.run(vec![alice, bob]), Err(ProtocolError::LabelMismatch));
}

#[test]
fn run_rejects_unknown_wires() {
    let c = two_input(GateType::AND);
    let (_, keys, gates) = garble(&c, &[0], &[1], &[2]);
    // a label for a wire without a pair
    let mut e = Evaluator::new(c.clone(), vec![2], keys.clone(), gates.clone());
    let mut alice = labels_for(&keys, &[0], 1);
    alice.insert(99, keys[&0].0.clone());
    assert_eq!(
        e.run(vec![alice, labels_for(&keys, &[1], 1)]),
        Err(ProtocolError::UnknownWire)
    );
    // an input label is missing
    let mut e = Evaluator::new(c.clone(), vec![2], keys.clone(), gates.clone());
    assert_eq!(
        e.run(vec![labels_for(&keys, &[0], 1)]),
        Err(ProtocolError::UnknownWire)
    );
    // a wanted wire that no garbled gate drives
    let mut e = Evaluator::new(c, vec![0], keys.clone(), gates);
    assert_eq!(
        e.run(vec![labels_for(&keys, &[0], 1), labels_for(&keys, &[1], 1)]),
        Err(ProtocolError::UnknownWire)
    );
}

#[test]
fn run_detects_corrupt_garbling() {
    let c = two_input(GateType::OR);
    let (_, keys, mut gates) = garble(&c, &[0], &[1], &[2]);
    let other = garble(&c, &[0], &[1], &[2]).2;
    gates.insert(2, GarbledGate {
        operation: GateType::OR,
        table: other[&2].table.clone(),
        input_wire_ids: vec![0, 1],
        output_keys: keys[&2].clone(),
    });
    let mut e = Evaluator::new(c, vec![2], keys.clone(), gates);
    assert_eq!(
        e.run(vec![labels_for(&keys, &[0], 1), labels_for(&keys, &[1], 0)]),
        Err(ProtocolError::CorruptGarbling)
    );
}

#[test]
fn run_detects_foreign_output_label() {
    let c = two_input(GateType::OR);
    let (_, keys, mut gates) = garble(&c, &[0], &[1], &[2]);
    let table = gates[&2].table.clone();
    gates.insert(2, GarbledGate {
        operation: GateType::OR,
        table,
        input_wire_ids: vec![0, 1],
        output_keys: keys[&0].clone(),
    });
    let mut e = Evaluator::new(c, vec![2], keys.clone(), gates);
    assert_eq!(
        e.run(vec![labels_for(&keys, &[0], 1), labels_for(&keys, &[1], 0)]),
        Err(ProtocolError::CorruptGarbling)
    );
}

#[test]
fn run_detects_cycle() {
    let mut c: Circuit = BTreeMap::new();
    c.insert(1, (GateType::NOT, vec![2]));
    c.insert(2, (GateType::NOT, vec![1]));
    let mut e = Evaluator::new(c, vec![2], BTreeMap::new(), BTreeMap::new());
    assert_eq!(e.run(vec![]), Err(ProtocolError::CycleDetected));
}

#[test]
fn run_without_outputs_gives_nothing() {
    let c = two_input(GateType::AND);
    let (_, keys, gates) = garble(&c, &[0], &[1], &[2]);
    let mut e = Evaluator::new(c, vec![], keys.clone(), gates);
    let bits = e
        .run(vec![labels_for(&keys, &[0], 1), labels_for(&keys, &[1], 1)])
        .unwrap();
    assert_eq!(bits.len(), 0);
}

#[test]
fn select_labels_picks_by_bit() {
    let delta = fresh_delta();
    let mut keys: Keys = BTreeMap::new();
    keys.insert(4, generate_keys(&delta).unwrap());
    keys.insert(5, generate_keys(&delta).unwrap());
    let labels = select_labels(&keys, &wire_values(&vec![4, 5], 0b10)).unwrap();
    assert_eq!(labels[&4], keys[&4].0);
    assert_eq!(labels[&5], keys[&5].1);
    assert_eq!(labels.len(), 2);
    assert_eq!(
        select_labels(&keys, &wire_values(&vec![4, 6], 0)),
        Err(ProtocolError::UnknownWire)
    );
}

#[test]
fn transfer_labels_delivers_the_chosen_labels() {
    let delta = fresh_delta();
    let mut keys: Keys = BTreeMap::new();
    keys.insert(4, generate_keys(&delta).unwrap());
    keys.insert(5, generate_keys(&delta).unwrap());
    keys.insert(6, generate_keys(&delta).unwrap());
    let alice = Sender::new();
    let mut bob = Receiver::new();
    let labels = transfer_labels(&alice, &mut bob, &keys, &wire_values(&vec![4, 5, 6], 0b101)).unwrap();
    assert_eq!(labels[&4], keys[&4].1);
    assert_eq!(labels[&5], keys[&5].0);
    assert_eq!(labels[&6], keys[&6].1);
}

#[test]
fn transfer_labels_reports_what_is_wrong() {
    let delta = fresh_delta();
    let mut keys: Keys = BTreeMap::new();
    keys.insert(4, generate_keys(&delta).unwrap());
    keys.insert(5, (String::from("abc"), String::from("def")));
    let alice = Sender::new();
    let mut bob = Receiver::new();
    assert_eq!(
        transfer_labels(&alice, &mut bob, &keys, &wire_values(&vec![4, 5], 0)),
        Err(ProtocolError::OTAbort)
    );
    assert_eq!(
        transfer_labels(&alice, &mut bob, &keys, &wire_values(&vec![4, 5, 9], 0)),
        Err(ProtocolError::UnknownWire)
    );
}

#[test]
fn recovered_text_reads_utf8() {
    assert_eq!(recovered_text(Some(b"label".to_vec())), Some(String::from("label")));
    assert_eq!(recovered_text(Some(Vec::new())), Some(String::new()));
    assert_eq!(
        recovered_text(Some(vec![0xc3, 0xa9, 0x21])),
        Some(String::from("\u{e9}!"))
    );
    assert_eq!(recovered_text(Some(vec![0xff, 0xfe])), None);
    assert_eq!(recovered_text(Some(vec![0xc3])), None);
    assert_eq!(recovered_text(None), None);
}

fn base64_encode(bytes: &[u8]) -> String {
    URL_SAFE.encode(bytes)
}

/// a netlist of one gate over two inputs whose three wires all have the
/// labels of 32 zero bytes and of 32 bytes `0xff`
fn hand_made(kind: GateType, table: Vec<String>) -> (Evaluator, String, String) {
    let zero = base64_encode(&[0u8; 32]);
    let full = base64_encode(&[0xffu8; 32]);
    let c = two_input(kind);
    let mut keys: Keys = BTreeMap::new();
    for w in 0..3u64 {
        keys.insert(w, (zero.clone(), full.clone()));
    }
    let mut gates: Gates = BTreeMap::new();
    gates.insert(2, GarbledGate {
        operation: kind,
        table,
        input_wire_ids: vec![0, 1],
        output_keys: (zero.clone(), full.clone()),
    });
    (Evaluator::new(c, vec![2], keys, gates), zero, full)
}

fn supply(a: &String, b: &String) -> Vec<BTreeMap<u64, String>> {
    let mut alice = BTreeMap::new();
    alice.insert(0u64, a.clone());
    let mut bob = BTreeMap::new();
    bob.insert(1u64, b.clone());
    vec![alice, bob]
}

#[test]
fn run_of_a_hand_made_xor_gate_needs_no_row() {
    for (a, b, bit) in [(0, 0, false), (0, 1, true), (1, 0, true), (1, 1, false)] {
        let (mut e, zero, full) = hand_made(GateType::XOR, vec![]);
        let pick = |v: i32| if v == 1 { &full } else { &zero };
        let bits = e.run(supply(pick(a), pick(b))).unwrap();
        assert_eq!(bits.len(), 1);
        assert_eq!(bits[&2], bit);
    }
}

#[test]
fn run_of_a_gate_without_rows_is_corrupt() {
    let (mut e, zero, _) = hand_made(GateType::AND, vec![]);
    assert_eq!(e.run(supply(&zero, &zero)), Err(ProtocolError::CorruptGarbling));
}

#[test]
fn run_reports_the_later_errors() {
    let zero = base64_encode(&[0u8; 32]);
    let full = base64_encode(&[0xffu8; 32]);
    let pair = (zero.clone(), full.clone());
    let c = two_input(GateType::XOR);
    let mut keys: Keys = BTreeMap::new();
    for w in 0..3u64 {
        keys.insert(w, pair.clone());
    }
    let gate = |kind: GateType, reads: Vec<u64>, out: (String, String)| {
        let mut gates: Gates = BTreeMap::new();
        gates.insert(2, GarbledGate {
            operation: kind,
            table: vec![],
            input_wire_ids: reads,
            output_keys: out,
        });
        gates
    };
    // an XOR gate that reads one wire
    let mut e =
        Evaluator::new(c.clone(), vec![2], keys.clone(), gate(GateType::XOR, vec![0], pair.clone()));
    assert_eq!(e.run(supply(&zero, &zero)), Err(ProtocolError::ArityMismatch));
    // a gate that reads nothing
    let mut e =
        Evaluator::new(c.clone(), vec![2], keys.clone(), gate(GateType::AND, vec![], pair.clone()));
    assert_eq!(e.run(supply(&zero, &zero)), Err(ProtocolError::ArityMismatch));
    // a gate that reads a wire without a label
    let mut e = Evaluator::new(
        c.clone(),
        vec![2],
        keys.clone(),
        gate(GateType::XOR, vec![0, 7], pair.clone()),
    );
    assert_eq!(e.run(supply(&zero, &zero)), Err(ProtocolError::UnknownWire));
    // the XOR of the labels is neither label of its gate
    let other = (base64_encode(&[1u8; 32]), base64_encode(&[2u8; 32]));
    let mut e =
        Evaluator::new(c.clone(), vec![2], keys.clone(), gate(GateType::XOR, vec![0, 1], other));
    assert_eq!(e.run(supply(&zero, &full)), Err(ProtocolError::CorruptGarbling));
    // a failed run leaves no label behind: the same evaluator still works
    let mut e =
        Evaluator::new(c.clone(), vec![2, 5], keys.clone(), gate(GateType::XOR, vec![0, 1], pair));
    assert_eq!(e.run(supply(&zero, &full)), Err(ProtocolError::UnknownWire));
}

#[test]
fn gate_outcome_settles_label_and_error() {
    let (_, zero, full) = hand_made(GateType::AND, vec![]);
    let g = GarbledGate {
        operation: GateType::AND,
        table: vec![],
        input_wire_ids: vec![0, 1],
        output_keys: (zero.clone(), full.clone()),
    };
    assert_eq!(gate_outcome(&g, Ok(zero.clone())), Ok((zero.clone(), false)));
    assert_eq!(gate_outcome(&g, Ok(full.clone())), Ok((full.clone(), true)));
    assert_eq!(
        gate_outcome(&g, Ok(String::from("other"))),
        Err(ProtocolError::CorruptGarbling)
    );
    assert_eq!(
        gate_outcome(&g, Err(ProtocolError::ArityMismatch)),
        Err(ProtocolError::ArityMismatch)
    );
    assert_eq!(
        gate_outcome(&g, Err(ProtocolError::LabelMismatch)),
        Err(ProtocolError::CorruptGarbling)
    );
    assert_eq!(
        gate_outcome(&g, Err(ProtocolError::CorruptGarbling)),
        Err(ProtocolError::CorruptGarbling)
    );
}

#[test]
fn build_refuses_a_constant_without_an_input() {
    // the rows of a constant are keyed by the labels of a wire it reads
    let mut c: Circuit = BTreeMap::new();
    c.insert(0, (GateType::INPUT, vec![]));
    c.insert(1, (GateType::CONST_1, vec![]));
    c.insert(2, (GateType::AND, vec![0, 1]));
    let mut g = Garbler::new(fresh_delta(), c, parties(&[0], &[]), outs(&[2])).unwrap();
    assert!(matches!(g.build(), Err(ProtocolError::ArityMismatch)));
    let mut c: Circuit = BTreeMap::new();
    c.insert(0, (GateType::INPUT, vec![]));
    c.insert(1, (GateType::CONST_1, vec![0]));
    c.insert(2, (GateType::AND, vec![0, 1]));
    for x in 0..2u64 {
        assert_eq!(evaluate(&c, &[0], &[], &[2], x, 0), x);
    }
}
