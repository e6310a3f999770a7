use garbled_circuit::error::ProtocolError;
use garbled_circuit::ot::{transfer, Receiver, Sender, KEY_LEN};

fn message(seed: u8) -> Vec<u8> {
    (0..32u8).map(|i| i.wrapping_mul(7).wrapping_add(seed)).collect()
}

#[test]
fn transfer_gives_the_chosen_message() {
    let alice = Sender::new();
    let m0 = message(1);
    let m1 = message(2);
    for choice in 0..2u8 {
        let mut bob = Receiver::new();
        let got = transfer(&alice, &mut bob, choice, &m0, &m1).unwrap();
        assert_eq!(got, if choice == 0 { m0.clone() } else { m1.clone() });
    }
}

#[test]
fn transfer_can_be_repeated() {
    let alice = Sender::new();
    let mut bob = Receiver::new();
    let m0 = message(3);
    let m1 = message(4);
    assert_eq!(transfer(&alice, &mut bob, 1, &m0, &m1).unwrap(), m1);
    assert_eq!(transfer(&alice, &mut bob, 0, &m0, &m1).unwrap(), m0);
    assert_eq!(transfer(&alice, &mut bob, 1, &m1, &m0).unwrap(), m0);
}

#[test]
fn transfer_refuses_bad_choice_and_lengths() {
    let alice = Sender::new();
    let mut bob = Receiver::new();
    let m0 = message(5);
    let m1 = message(6);
    assert_eq!(transfer(&alice, &mut bob, 2, &m0, &m1), Err(ProtocolError::OTAbort));
    assert_eq!(
        transfer(&alice, &mut bob, 0, &vec![1, 2, 3], &m1),
        Err(ProtocolError::OTAbort)
    );
    assert_eq!(
        transfer(&alice, &mut bob, 1, &m0, &Vec::new()),
        Err(ProtocolError::OTAbort)
    );
}

#[test]
fn both_sides_derive_the_same_key_for_the_choice() {
    for choice in 0..2u8 {
        let alice = Sender::new();
        let mut bob = Receiver::new();
        let blind = bob.make_choice(&alice.s(), choice).unwrap();
        let keys = alice.derive_keys(blind).unwrap();
        let key = bob.derive_key().unwrap();
        if choice == 0 {
            assert_eq!(key, keys.0);
            assert_ne!(key, keys.1);
        } else {
            assert_eq!(key, keys.1);
            assert_ne!(key, keys.0);
        }
    }
}

#[test]
fn receiver_cannot_open_the_other_message() {
    for choice in 0..2u8 {
        let alice = Sender::new();
        let mut bob = Receiver::new();
        let blind = bob.make_choice(&alice.s(), choice).unwrap();
        let keys = alice.derive_keys(blind).unwrap();
        let m0 = message(7);
        let m1 = message(8);
        let (e0, e1) = alice
            .encrypt(keys.0.to_vec(), keys.1.to_vec(), &m0, &m1)
            .unwrap();
        let key = bob.derive_key().unwrap();
        let got = bob.decrypt_ciphertexts(key, (e0.clone(), e1.clone()));
        assert_eq!(got, Some(if choice == 0 { m0.clone() } else { m1.clone() }));
        // with the ciphertexts swapped the receiver faces the other one
        assert_eq!(bob.decrypt_ciphertexts(key, (e1, e0)), None);
    }
}

#[test]
fn encrypt_pads_and_tags() {
    let alice = Sender::new();
    let k1: Vec<u8> = (0..32u8).collect();
    let k2: Vec<u8> = (100..132u8).collect();
    let m1 = vec![0xffu8; 32];
    let m2 = vec![0u8; 32];
    let (e1, e2) = alice.encrypt(k1.clone(), k2.clone(), &m1, &m2).unwrap();
    assert_eq!(e1.len(), 64);
    assert_eq!(e2.len(), 64);
    for i in 0..32 {
        assert_eq!(e1[i], 0xff ^ k1[i]);
        assert_eq!(e1[32 + i], k1[i]);
        assert_eq!(e2[i], k2[i]);
        assert_eq!(e2[32 + i], k2[i]);
    }
}

#[test]
fn encrypt_takes_longer_keys() {
    let alice = Sender::new();
    let k: Vec<u8> = (0..40u8).collect();
    let m = vec![1u8; 40];
    let (e1, _) = alice.encrypt(k.clone(), k.clone(), &m, &m).unwrap();
    assert_eq!(e1.len(), 40 + KEY_LEN);
    assert_eq!(e1[39], 1 ^ 39);
    assert_eq!(&e1[40..], &k[..32]);
}

#[test]
fn encrypt_refuses_mismatched_lengths() {
    let alice = Sender::new();
    let k: Vec<u8> = (0..32u8).collect();
    let short = vec![0u8; 16];
    assert_eq!(
        alice.encrypt(k.clone(), k.clone(), &short, &k),
        Err(ProtocolError::OTAbort)
    );
    assert_eq!(
        alice.encrypt(k.clone(), k.clone(), &k, &short),
        Err(ProtocolError::OTAbort)
    );
    assert_eq!(
        alice.encrypt(short.clone(), k.clone(), &short, &k),
        Err(ProtocolError::OTAbort)
    );
}

#[test]
fn make_choice_refuses_bad_point_and_bad_choice() {
    let alice = Sender::new();
    let mut bob = Receiver::new();
    assert_eq!(bob.make_choice(&[0xffu8; 32], 0), Err(ProtocolError::OTAbort));
    assert_eq!(bob.make_choice(&alice.s(), 2), Err(ProtocolError::OTAbort));
    assert_eq!(bob.derive_key(), Err(ProtocolError::OTAbort));
    assert!(bob.make_choice(&alice.s(), 1).is_ok());
    assert!(bob.derive_key().is_ok());
}

#[test]
fn receiver_needs_a_choice_first() {
    let mut bob = Receiver::new();
    assert_eq!(bob.derive_key(), Err(ProtocolError::OTAbort));
    assert_eq!(bob.decrypt_ciphertexts([0u8; 32], (vec![0u8; 64], vec![0u8; 64])), None);
}

#[test]
fn derive_keys_refuses_bad_point() {
    let alice = Sender::new();
    assert_eq!(alice.derive_keys([0xffu8; 32]), Err(ProtocolError::OTAbort));
}

#[test]
fn derive_keys_gives_two_different_keys() {
    let alice = Sender::new();
    let mut bob = Receiver::new();
    let blind = bob.make_choice(&alice.s(), 0).unwrap();
    let keys = alice.derive_keys(blind).unwrap();
    assert_ne!(keys.0, keys.1);
    assert_ne!(keys.0, blind);
    assert_ne!(keys.0, alice.s());
    assert_eq!(alice.derive_keys(blind).unwrap(), keys);
}

#[test]
fn blinded_choice_differs_from_the_public_point() {
    let alice = Sender::new();
    let mut bob = Receiver::new();
    let r0 = bob.make_choice(&alice.s(), 0).unwrap();
    let r1 = bob.make_choice(&alice.s(), 1).unwrap();
    assert_ne!(r0, r1);
    assert_ne!(r0, alice.s());
    assert_ne!(Sender::new().s(), alice.s());
}

#[test]
fn decrypt_checks_the_tag() {
    let alice = Sender::new();
    let mut bob = Receiver::new();
    bob.make_choice(&alice.s(), 0).unwrap();
    let key: [u8; 32] = [9u8; 32];
    let m = message(11);
    let (e, _) = alice.encrypt(key.to_vec(), key.to_vec(), &m, &m).unwrap();
    assert_eq!(bob.decrypt_ciphertexts(key, (e.clone(), Vec::new())), Some(m));
    let mut bad = e.clone();
    bad[40] ^= 1;
    assert_eq!(bob.decrypt_ciphertexts(key, (bad, Vec::new())), None);
    assert_eq!(bob.decrypt_ciphertexts(key, (vec![1, 2, 3], Vec::new())), None);
    // a ciphertext that is all tag carries the empty message
    assert_eq!(
        bob.decrypt_ciphertexts(key, (key.to_vec(), Vec::new())),
        Some(Vec::new())
    );
}

#[test]
fn receiver_with_known_scalar_blinds_as_computed() {
    let alice = Sender::new();
    let basepoint: [u8; 32] = [
        0xe2, 0xf2, 0xae, 0x0a, 0x6a, 0xbc, 0x4e, 0x71, 0xa8, 0x84, 0xa9, 0x61, 0xc5, 0x00, 0x51,
        0x5f, 0x58, 0xe3, 0x0b, 0x6a, 0xa5, 0x82, 0xdd, 0x8d, 0xb6, 0xa6, 0x59, 0x45, 0xe0, 0x8d,
        0x2d, 0x76,
    ];
    // the scalar 0: the blinded choice is the neutral point or the sender's point
    let mut bob = Receiver::with_scalar([0u8; 32]);
    assert_eq!(bob.derive_key(), Err(ProtocolError::OTAbort));
    assert_eq!(bob.make_choice(&alice.s(), 0), Ok([0u8; 32]));
    assert_eq!(bob.make_choice(&alice.s(), 1), Ok(alice.s()));
    // the scalar 1: the blinded choice for 0 is the generator
    let mut one = [0u8; 32];
    one[0] = 1;
    let mut bob = Receiver::with_scalar(one);
    assert_eq!(bob.make_choice(&alice.s(), 0), Ok(basepoint));
    assert_ne!(bob.make_choice(&alice.s(), 1), Ok(basepoint));
}

#[test]
fn receivers_with_the_same_scalar_agree() {
    let alice = Sender::new();
    let scalar: [u8; 32] = [7u8; 32];
    let mut first = Receiver::with_scalar(scalar);
    let mut second = Receiver::with_scalar(scalar);
    let mut other = Receiver::with_scalar([8u8; 32]);
    for choice in 0..2u8 {
        let r = first.make_choice(&alice.s(), choice).unwrap();
        assert_eq!(second.make_choice(&alice.s(), choice), Ok(r));
        assert_ne!(other.make_choice(&alice.s(), choice), Ok(r));
        assert_eq!(first.derive_key(), second.derive_key());
        let keys = alice.derive_keys(r).unwrap();
        let key = first.derive_key().unwrap();
        assert_eq!(key, if choice == 0 { keys.0 } else { keys.1 });
    }
}
