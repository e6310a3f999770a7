use garbled_circuit::error::ProtocolError;
use garbled_circuit::netlist::topo_sort_wires;
use garbled_circuit::utils::{
    bytes_xor, decode_label, decrypt, derive_row_key, encrypt, generate_encryption_key,
    generate_keys, wire_values, wires_of, Circuit, GateType, LABEL_LEN,
};
use std::collections::BTreeMap;

fn hex(bytes: &[u8]) -> String {
    let mut s = String::new();
    for b in bytes {
        s.push_str(&format!("{:02x}", b));
    }
    s
}

fn zero_label() -> String {
    // the base64 text of 32 zero bytes
    String::from("AAAAAAAAAAAAAAAAAAAAAAAAAAAAAAAAAAAAAAAAAAA=")
}

#[test]
fn bytes_xor_is_bytewise() {
    let a = vec![0x0fu8, 0xf0, 0xaa, 0x00];
    let b = vec![0xffu8, 0xff, 0x55, 0x00];
    assert_eq!(bytes_xor(&a, &b), vec![0xf0u8, 0x0f, 0xff, 0x00]);
}

#[test]
fn bytes_xor_cancels() {
    let a = vec![1u8, 2, 3, 250];
    let b = vec![9u8, 8, 7, 6];
    assert_eq!(bytes_xor(&bytes_xor(&a, &b), &b), a);
}

#[test]
fn bytes_xor_cuts_to_the_shorter() {
    let a = vec![1u8, 2, 3];
    let b = vec![1u8];
    assert_eq!(bytes_xor(&a, &b), vec![0u8]);
    assert_eq!(bytes_xor(&Vec::new(), &b), Vec::<u8>::new());
}

#[test]
fn wire_values_is_lsb_first() {
    let wires = vec![10u64, 11, 12, 13];
    let bits = wire_values(&wires, 0b0101);
    assert_eq!(bits.get(&10), Some(&true));
    assert_eq!(bits.get(&11), Some(&false));
    assert_eq!(bits.get(&12), Some(&true));
    assert_eq!(bits.get(&13), Some(&false));
    assert_eq!(bits.len(), 4);
}

#[test]
fn wire_values_pads_with_zero() {
    let wires: Vec<u64> = (0..70).collect();
    let bits = wire_values(&wires, u64::MAX);
    for w in 0..64u64 {
        assert_eq!(bits.get(&w), Some(&true));
    }
    for w in 64..70u64 {
        assert_eq!(bits.get(&w), Some(&false));
    }
}

#[test]
fn wire_values_drops_high_bits() {
    let wires = vec![5u64, 6];
    let bits = wire_values(&wires, 0b110);
    assert_eq!(bits.get(&5), Some(&false));
    assert_eq!(bits.get(&6), Some(&true));
    assert_eq!(bits.len(), 2);
}

#[test]
fn wire_values_last_position_wins() {
    let wires = vec![3u64, 3];
    let bits = wire_values(&wires, 0b01);
    assert_eq!(bits.get(&3), Some(&false));
    assert_eq!(bits.len(), 1);
}

#[test]
fn wires_of_lists_keys_in_order() {
    let mut m: BTreeMap<u64, bool> = BTreeMap::new();
    m.insert(9, true);
    m.insert(2, false);
    m.insert(5, true);
    assert_eq!(wires_of(&m), vec![2u64, 5, 9]);
}

#[test]
fn garbled_arity_of_kinds() {
    assert_eq!(GateType::INPUT.garbled_arity(), 0);
    assert_eq!(GateType::NOT.garbled_arity(), 1);
    assert_eq!(GateType::CONST.garbled_arity(), 1);
    assert_eq!(GateType::CONST_0.garbled_arity(), 1);
    assert_eq!(GateType::CONST_1.garbled_arity(), 1);
    assert_eq!(GateType::AND.garbled_arity(), 2);
    assert_eq!(GateType::XOR.garbled_arity(), 2);
    assert_eq!(GateType::ORNOT.garbled_arity(), 2);
}

#[test]
fn generate_keys_gives_offset_pair() {
    let delta = generate_keys(&zero_label()).unwrap().0;
    let (zero, one) = generate_keys(&delta).unwrap();
    let d = decode_label(&delta).unwrap();
    let l0 = decode_label(&zero).unwrap();
    let l1 = decode_label(&one).unwrap();
    assert_eq!(l0.len(), LABEL_LEN);
    assert_eq!(l1.len(), LABEL_LEN);
    assert_eq!(bytes_xor(&l1, &l0), d);
    assert_ne!(zero, one);
}

#[test]
fn generate_keys_are_fresh() {
    let delta = zero_label();
    let a = generate_keys(&delta).unwrap();
    let b = generate_keys(&delta).unwrap();
    assert_ne!(a.0, b.0);
    // with the zero offset both labels of a pair are the same
    assert_eq!(a.0, a.1);
}

#[test]
fn generate_keys_refuses_bad_delta() {
    assert!(generate_keys(&String::from("not base64!")).is_none());
    // 16 bytes only
    assert!(generate_keys(&String::from("AAAAAAAAAAAAAAAAAAAAAA==")).is_none());
    assert!(generate_keys(&String::new()).is_none());
}

#[test]
fn decode_label_reads_bytes() {
    let bytes = decode_label(&zero_label()).unwrap();
    assert_eq!(bytes, vec![0u8; 32]);
    assert!(decode_label(&String::from("AAAA")).is_none());
    assert!(decode_label(&String::from("****")).is_none());
}

#[test]
fn generate_encryption_key_is_hmac_sha256() {
    // a published test vector of HMAC-SHA256
    let parts = vec![
        b"key".to_vec(),
        b"The quick brown fox jumps over the lazy dog".to_vec(),
    ];
    let tag = generate_encryption_key(&parts);
    assert_eq!(
        hex(&tag),
        "f7bc83f430538424b13298e6aa6fb143ef4d59a14946175997479dbc2d1a3cd8"
    );
}

#[test]
fn generate_encryption_key_feeds_parts_in_order() {
    let split = vec![
        b"key".to_vec(),
        b"The quick brown fox ".to_vec(),
        b"jumps over the lazy dog".to_vec(),
    ];
    let tag = generate_encryption_key(&split);
    assert_eq!(
        hex(&tag),
        "f7bc83f430538424b13298e6aa6fb143ef4d59a14946175997479dbc2d1a3cd8"
    );
    let swapped = vec![
        b"key".to_vec(),
        b"jumps over the lazy dog".to_vec(),
        b"The quick brown fox ".to_vec(),
    ];
    assert_ne!(generate_encryption_key(&swapped), tag);
}

#[test]
fn generate_encryption_key_with_key_only() {
    // HMAC-SHA256 of the empty message under the key "key"
    let tag = generate_encryption_key(&vec![b"key".to_vec()]);
    assert_eq!(
        hex(&tag),
        "5d5d139563c95b5967b9bd9a8c9b233a9dedb45072794cd232dc1b74832607d0"
    );
    assert_eq!(tag.len(), 32);
}

#[test]
fn derive_row_key_is_encoded_tag() {
    let labels = vec![String::from("key"), String::from("The quick brown fox jumps over the lazy dog")];
    let key = derive_row_key(&labels);
    // the URL-safe base64 text of the tag above
    assert_eq!(key, "97yD9DBThCSxMpjmqm-xQ-9NWaFJRhdZl0edvC0aPNg=");
    assert_eq!(decode_label(&key).unwrap().len(), 32);
}

#[test]
fn encrypt_then_decrypt_gives_data_back() {
    let key = zero_label();
    let token = encrypt(&key, b"hello label".to_vec()).unwrap();
    assert_ne!(token.as_bytes(), b"hello label");
    assert_eq!(decrypt(key, token), Some(b"hello label".to_vec()));
}

#[test]
fn decrypt_fails_on_wrong_key_and_tampering() {
    let key = zero_label();
    let other = generate_keys(&zero_label()).unwrap().0;
    let token = encrypt(&key, b"secret".to_vec()).unwrap();
    assert_eq!(decrypt(other, token.clone()), None);
    let mut tampered = token.clone().into_bytes();
    let at = tampered.len() / 2;
    tampered[at] = if tampered[at] == b'A' { b'B' } else { b'A' };
    assert_eq!(decrypt(key.clone(), String::from_utf8(tampered).unwrap()), None);
    assert_eq!(decrypt(key, String::from("garbage")), None);
}

#[test]
fn encrypt_refuses_bad_key() {
    assert!(encrypt(&String::from("short"), b"data".to_vec()).is_none());
    assert_eq!(decrypt(String::from("short"), String::from("token")), None);
}

#[test]
fn encrypt_is_randomized() {
    let key = zero_label();
    let a = encrypt(&key, b"same".to_vec()).unwrap();
    let b = encrypt(&key, b"same".to_vec()).unwrap();
    assert_ne!(a, b);
}

fn gate(kind: GateType, inputs: &[u64]) -> (GateType, Vec<u64>) {
    (kind, inputs.to_vec())
}

fn position(order: &[u64], w: u64) -> usize {
    order.iter().position(|x| *x == w).unwrap()
}

#[test]
fn topo_sort_puts_inputs_first() {
    let mut c: Circuit = BTreeMap::new();
    c.insert(5, gate(GateType::AND, &[3, 4]));
    c.insert(3, gate(GateType::XOR, &[1, 2]));
    c.insert(4, gate(GateType::NOT, &[2]));
    c.insert(1, gate(GateType::INPUT, &[]));
    c.insert(2, gate(GateType::INPUT, &[]));
    let order = topo_sort_wires(&c).unwrap();
    assert_eq!(order.len(), 5);
    assert!(position(&order, 1) < position(&order, 3));
    assert!(position(&order, 2) < position(&order, 3));
    assert!(position(&order, 2) < position(&order, 4));
    assert!(position(&order, 3) < position(&order, 5));
    assert!(position(&order, 4) < position(&order, 5));
    // transitive inputs come first too
    assert!(position(&order, 1) < position(&order, 5));
    assert!(position(&order, 2) < position(&order, 5));
}

#[test]
fn topo_sort_is_deterministic() {
    let mut c: Circuit = BTreeMap::new();
    c.insert(9, gate(GateType::OR, &[7, 8]));
    c.insert(7, gate(GateType::INPUT, &[]));
    c.insert(8, gate(GateType::INPUT, &[]));
    assert_eq!(topo_sort_wires(&c).unwrap(), vec![7u64, 8, 9]);
    assert_eq!(topo_sort_wires(&c).unwrap(), topo_sort_wires(&c).unwrap());
}

#[test]
fn topo_sort_lists_undefined_wires() {
    let mut c: Circuit = BTreeMap::new();
    c.insert(2, gate(GateType::NOT, &[40]));
    let order = topo_sort_wires(&c).unwrap();
    assert_eq!(order, vec![40u64, 2]);
}

#[test]
fn topo_sort_of_empty_netlist() {
    let c: Circuit = BTreeMap::new();
    assert_eq!(topo_sort_wires(&c).unwrap(), Vec::<u64>::new());
}

#[test]
fn topo_sort_detects_cycle() {
    let mut c: Circuit = BTreeMap::new();
    c.insert(1, gate(GateType::AND, &[2, 3]));
    c.insert(2, gate(GateType::NOT, &[1]));
    c.insert(3, gate(GateType::INPUT, &[]));
    assert_eq!(topo_sort_wires(&c), Err(ProtocolError::CycleDetected));
}

#[test]
fn topo_sort_detects_self_loop() {
    let mut c: Circuit = BTreeMap::new();
    c.insert(1, gate(GateType::NOT, &[1]));
    assert_eq!(topo_sort_wires(&c), Err(ProtocolError::CycleDetected));
}

#[test]
fn topo_sort_takes_shared_wires_once() {
    let mut c: Circuit = BTreeMap::new();
    c.insert(0, gate(GateType::INPUT, &[]));
    c.insert(1, gate(GateType::AND, &[0, 0]));
    c.insert(2, gate(GateType::OR, &[1, 0]));
    c.insert(3, gate(GateType::XOR, &[2, 1]));
    assert_eq!(topo_sort_wires(&c).unwrap(), vec![0u64, 1, 2, 3]);
}

#[test]
fn topo_sort_puts_sources_before_gates() {
    // wires 1 and 3 read nothing, wire 2 is a gate between them
    let mut c: Circuit = BTreeMap::new();
    c.insert(1, gate(GateType::INPUT, &[]));
    c.insert(2, gate(GateType::NOT, &[1]));
    c.insert(3, gate(GateType::INPUT, &[]));
    assert_eq!(topo_sort_wires(&c).unwrap(), vec![1, 3, 2]);
    // a constant that reads nothing is a source too
    let mut c: Circuit = BTreeMap::new();
    c.insert(1, gate(GateType::INPUT, &[]));
    c.insert(2, gate(GateType::AND, &[1, 9]));
    c.insert(9, gate(GateType::CONST_1, &[]));
    assert_eq!(topo_sort_wires(&c).unwrap(), vec![1, 9, 2]);
}

#[test]
fn topo_sort_walks_the_keys_in_order() {
    // sources first, then each key with what it reads before it
    let mut c: Circuit = BTreeMap::new();
    c.insert(7, gate(GateType::INPUT, &[]));
    c.insert(1, gate(GateType::AND, &[5, 20]));
    c.insert(5, gate(GateType::NOT, &[7]));
    c.insert(3, gate(GateType::NOT, &[1]));
    let order = topo_sort_wires(&c).unwrap();
    assert_eq!(order, vec![7, 5, 20, 1, 3]);
    assert_eq!(topo_sort_wires(&c).unwrap(), order);
}

#[test]
fn wires_of_lists_keys_in_increasing_order() {
    let mut m: BTreeMap<u64, bool> = BTreeMap::new();
    for w in [9u64, 3, 7, 0, u64::MAX, 4] {
        m.insert(w, w % 2 == 0);
    }
    assert_eq!(wires_of(&m), vec![0, 3, 4, 7, 9, u64::MAX]);
}
