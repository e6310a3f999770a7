//! How the input labels reach the evaluator: the garbling party picks the
//! labels of its own bits, and the other party's labels go through an
//! oblivious transfer, one per wire.
use crate::error::ProtocolError;
use crate::garbler::pick;
use crate::ot::{transfer, Receiver, Sender};
use crate::primitives::{base64_encode, url_safe_encode};
use crate::utils::{decode_label, is_label, label_bytes, offset_pair, wires_of};
use std::collections::BTreeMap;
use vstd::prelude::*;

verus! {

/// Some wire with a bit has no label pair.
pub open spec fn lacks_pair(keys: Map<u64, (String, String)>, values: Map<u64, bool>) -> bool {
    exists|w: u64| #[trigger] values.contains_key(w) && !keys.contains_key(w)
}

/// Some wire with a bit has a pair in which a text is not a label.
pub open spec fn has_bad_pair(keys: Map<u64, (String, String)>, values: Map<u64, bool>) -> bool {
    exists|w: u64|
        #[trigger] values.contains_key(w) && !(is_label(keys[w].0@) && is_label(keys[w].1@))
}

/// Whether every wire with a bit has a label pair.
fn all_paired(wires: &Vec<u64>, wire_to_keys: &BTreeMap<u64, (String, String)>) -> (r: bool)
    ensures
        r == forall|j: int| 0 <= j < wires.len() ==> wire_to_keys@.contains_key(#[trigger] wires[j]),
{
    broadcast use vstd::std_specs::btree::group_btree_axioms;

    let mut i: usize = 0;
    while i < wires.len()
        invariant
            i <= wires.len(),
            forall|j: int| 0 <= j < i ==> wire_to_keys@.contains_key(#[trigger] wires[j]),
        decreases wires.len() - i,
    {
        if !wire_to_keys.contains_key(&wires[i]) {
            return false;
        }
        i += 1;
    }
    true
}

/// Picks, for every wire with a bit, the label that stands for the bit.
/// Fails with `UnknownWire` exactly when some wire has no label pair.
pub fn select_labels(
    wire_to_keys: &BTreeMap<u64, (String, String)>,
    values: &BTreeMap<u64, bool>,
) -> (r: Result<BTreeMap<u64, String>, ProtocolError>)
    ensures
        match r {
            Ok(labels) => {
                &&& !lacks_pair(wire_to_keys@, values@)
                &&& labels@.dom() == values@.dom()
                &&& forall|w: u64| #[trigger]
                    labels@.contains_key(w) ==> labels@[w]@ == pick(wire_to_keys@[w], values@[w])
            },
            Err(e) => e == ProtocolError::UnknownWire && lacks_pair(wire_to_keys@, values@),
        },
{
    broadcast use vstd::std_specs::btree::group_btree_axioms;

    let wires = wires_of(values);
    if !all_paired(&wires, wire_to_keys) {
        proof {
            let j = choose|j: int|
                0 <= j < wires.len() && !wire_to_keys@.contains_key(#[trigger] wires[j]);
            assert(wires@.to_set().contains(wires[j]));
        }
        return Err(ProtocolError::UnknownWire);
    }
    proof {
        assert forall|w: u64| #[trigger] values@.contains_key(w) implies wire_to_keys@.contains_key(
            w,
        ) by {
            assert(wires@.to_set().contains(w));
            let j = choose|j: int| 0 <= j < wires@.len() && wires@[j] == w;
            assert(wire_to_keys@.contains_key(wires[j]));
        }
    }
    let mut labels: BTreeMap<u64, String> = BTreeMap::new();
    let mut i: usize = 0;
    while i < wires.len()
        invariant
            i <= wires.len(),
            wires@.to_set() == values@.dom(),
            forall|j: int| 0 <= j < wires.len() ==> wire_to_keys@.contains_key(#[trigger] wires[j]),
            labels@.dom() == wires@.take(i as int).to_set(),
            forall|w: u64| #[trigger]
                labels@.contains_key(w) ==> labels@[w]@ == pick(wire_to_keys@[w], values@[w]),
        decreases wires.len() - i,
    {
        let wire_id: u64 = wires[i];
        assert(wires@.to_set().contains(wire_id));
        assert(wire_to_keys@.contains_key(wires[i as int]));
        let value: bool = *values.get(&wire_id).unwrap();
        let wire_key = wire_to_keys.get(&wire_id).unwrap();
        let label = if value {
            wire_key.1.clone()
        } else {
            wire_key.0.clone()
        };
        labels.insert(wire_id, label);
        proof {
            lemma_take_push(wires@, i as int);
        }
        i += 1;
    }
    assert(wires@.take(i as int) =~= wires@);
    Ok(labels)
}

/// The wires up to and with place `i` are those before it and the one at it.
proof fn lemma_take_push(wires: Seq<u64>, i: int)
    requires
        0 <= i < wires.len(),
    ensures
        wires.take(i + 1).to_set() == wires.take(i).to_set().insert(wires[i]),
{
    let done = wires.take(i);
    let more = wires.take(i + 1);
    assert(more =~= done.push(wires[i]));
    assert forall|w: u64| more.to_set().contains(w) <==> done.to_set().insert(wires[i]).contains(
        w,
    ) by {
        if more.contains(w) {
            let at = choose|at: int| 0 <= at < more.len() && more[at] == w;
            if at < i {
                assert(done[at] == w);
            }
        }
        if done.contains(w) {
            let at = choose|at: int| 0 <= at < done.len() && done[at] == w;
            assert(more[at] == w);
        }
        if w == wires[i] {
            assert(more[i] == w);
        }
    }
    assert(more.to_set() =~= done.to_set().insert(wires[i]));
}

/// Delivers, for every wire with a bit, the label that stands for the bit
/// by an oblivious transfer between `sender` and `receiver`: the sender
/// offers the bytes of both labels, the receiver chooses with its bit and
/// encodes what it gets.
///
/// Fails with `UnknownWire` exactly when some wire has no label pair, and
/// otherwise with `OTAbort` exactly when a text of some pair is not a label.
pub fn transfer_labels(
    sender: &Sender,
    receiver: &mut Receiver,
    wire_to_keys: &BTreeMap<u64, (String, String)>,
    values: &BTreeMap<u64, bool>,
) -> (r: Result<BTreeMap<u64, String>, ProtocolError>)
    ensures
        match r {
            Ok(labels) => {
                &&& !lacks_pair(wire_to_keys@, values@)
                &&& !has_bad_pair(wire_to_keys@, values@)
                &&& labels@.dom() == values@.dom()
                &&& forall|w: u64| #[trigger]
                    labels@.contains_key(w) ==> labels@[w]@ == url_safe_encode(
                        label_bytes(pick(wire_to_keys@[w], values@[w]))->0,
                    )
            },
            Err(e) => match e {
                ProtocolError::UnknownWire => lacks_pair(wire_to_keys@, values@),
                ProtocolError::OTAbort => !lacks_pair(wire_to_keys@, values@) && has_bad_pair(
                    wire_to_keys@,
                    values@,
                ),
                _ => false,
            },
        },
{
    broadcast use vstd::std_specs::btree::group_btree_axioms;

    let wires = wires_of(values);
    if !all_paired(&wires, wire_to_keys) {
        proof {
            let j = choose|j: int|
                0 <= j < wires.len() && !wire_to_keys@.contains_key(#[trigger] wires[j]);
            assert(wires@.to_set().contains(wires[j]));
        }
        return Err(ProtocolError::UnknownWire);
    }
    proof {
        assert forall|w: u64| #[trigger] values@.contains_key(w) implies wire_to_keys@.contains_key(
            w,
        ) by {
            assert(wires@.to_set().contains(w));
            let j = choose|j: int| 0 <= j < wires@.len() && wires@[j] == w;
            assert(wire_to_keys@.contains_key(wires[j]));
        }
    }
    let mut labels: BTreeMap<u64, String> = BTreeMap::new();
    let mut i: usize = 0;
    while i < wires.len()
        invariant
            i <= wires.len(),
            wires@.to_set() == values@.dom(),
            forall|j: int| 0 <= j < wires.len() ==> wire_to_keys@.contains_key(#[trigger] wires[j]),
            !lacks_pair(wire_to_keys@, values@),
            forall|j: int|
                0 <= j < i ==> is_label(wire_to_keys@[#[trigger] wires[j]].0@) && is_label(
                    wire_to_keys@[wires[j]].1@,
                ),
            labels@.dom() == wires@.take(i as int).to_set(),
            forall|w: u64| #[trigger]
                labels@.contains_key(w) ==> labels@[w]@ == url_safe_encode(
                    label_bytes(pick(wire_to_keys@[w], values@[w]))->0,
                ),
        decreases wires.len() - i,
    {
        let wire_id: u64 = wires[i];
        assert(wires@.to_set().contains(wire_id));
        assert(wire_to_keys@.contains_key(wires[i as int]));
        let value: bool = *values.get(&wire_id).unwrap();
        let wire_key = wire_to_keys.get(&wire_id).unwrap();
        let m0 = match decode_label(&wire_key.0) {
            Some(m) => m,
            None => {
                return Err(ProtocolError::OTAbort);
            },
        };
        let m1 = match decode_label(&wire_key.1) {
            Some(m) => m,
            None => {
                return Err(ProtocolError::OTAbort);
            },
        };
        let choice: u8 = if value {
            1
        } else {
            0
        };
        let decrypted = transfer(sender, receiver, choice, &m0, &m1).unwrap();
        labels.insert(wire_id, base64_encode(decrypted.as_slice()));
        proof {
            lemma_take_push(wires@, i as int);
        }
        i += 1;
    }
    proof {
        assert(wires@.take(i as int) =~= wires@);
        if has_bad_pair(wire_to_keys@, values@) {
            let w = choose|w: u64|
                #[trigger] values@.contains_key(w) && !(is_label(wire_to_keys@[w].0@) && is_label(
                    wire_to_keys@[w].1@,
                ));
            assert(wires@.to_set().contains(w));
            let j = choose|j: int| 0 <= j < wires@.len() && wires@[j] == w;
            assert(is_label(wire_to_keys@[wires[j]].0@));
        }
    }
    Ok(labels)
}

/// What a transfer delivers for a wire of a garbled netlist is the label
/// that the garbling party would have picked itself: the labels of a pair
/// with an offset are written as the encoder writes their bytes.
pub proof fn lemma_transfer_delivers_the_label(pair: (String, String), delta: Seq<char>, bit: bool)
    requires
        offset_pair(pair.0@, pair.1@, delta),
    ensures
        url_safe_encode(label_bytes(pick(pair, bit))->0) == pick(pair, bit),
{
}

} // verus!
