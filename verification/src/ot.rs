//! Chou-Orlandi 1-out-of-2 oblivious transfer over the Ristretto group. The
//! sender holds two messages, the receiver a choice bit; the receiver learns
//! the message of its choice, the sender learns nothing of the choice.
use crate::error::ProtocolError;
use crate::ristretto::{
    base_mul, basepoint, blake3_digest, blake3_hash, point_add, point_mul, point_sub,
    random_scalar, ristretto_add, ristretto_mul, ristretto_sub, ristretto_valid,
};
use crate::utils::xor_bytes;
use vstd::prelude::*;

verus! {

/// The length of a key and of its tag, in bytes.
pub const KEY_LEN: usize = 32;

/// The bytes of a scalar that is a small number.
pub open spec fn small_scalar(n: u8) -> Seq<u8> {
    Seq::new(32, |i: int| if i == 0 { n } else { 0u8 })
}

/// The key that both sides derive: the hash of the sender's public point,
/// the receiver's blinded choice and a point that only the two can compute.
pub open spec fn ot_key(s: Seq<u8>, r: Seq<u8>, p: Seq<u8>) -> Seq<u8> {
    blake3_hash(s + r + p)
}

/// What the receiver sends for the scalar `x` and the choice `c`: `x` times
/// the generator, plus `c` times the sender's public point.
pub open spec fn blinded(x: Seq<u8>, c: Seq<u8>, s: Seq<u8>) -> Seq<u8> {
    ristretto_add(ristretto_mul(x, basepoint()), ristretto_mul(c, s))
}

/// The point that the two sides share: the generator times both scalars.
pub open spec fn shared(x: Seq<u8>, y: Seq<u8>) -> Seq<u8> {
    ristretto_mul(y, ristretto_mul(x, basepoint()))
}

/// A message under a key: the message XOR the key, followed by the first
/// `KEY_LEN` bytes of the key as a tag.
pub open spec fn sealed(key: Seq<u8>, message: Seq<u8>) -> Seq<u8> {
    xor_bytes(message, key) + key.take(KEY_LEN as int)
}

/// What a key makes of a ciphertext: nothing unless the ciphertext ends in
/// the first `KEY_LEN` bytes of the key and what precedes them is no longer
/// than the key; else what precedes them, XOR the key.
pub open spec fn opened(key: Seq<u8>, ciphertext: Seq<u8>) -> Option<Seq<u8>> {
    if key.len() >= KEY_LEN && ciphertext.len() >= KEY_LEN && ciphertext.len() - KEY_LEN
        <= key.len() && key.take(KEY_LEN as int) == ciphertext.skip(ciphertext.len() - KEY_LEN) {
        Some(xor_bytes(ciphertext.take(ciphertext.len() - KEY_LEN), key))
    } else {
        None
    }
}

/// The key that sealed a message opens it again.
pub proof fn lemma_open_sealed(key: Seq<u8>, message: Seq<u8>)
    requires
        key.len() >= KEY_LEN,
        message.len() == key.len(),
    ensures
        opened(key, sealed(key, message)) == Some(message),
{
    let e = sealed(key, message);
    assert(e.skip(e.len() - KEY_LEN) =~= key.take(KEY_LEN as int));
    assert(e.take(e.len() - KEY_LEN) =~= xor_bytes(message, key));
    crate::utils::lemma_xor_cancel(message, key);
}

/// A key with another tag does not open a sealed message: the tag check
/// fails.
pub proof fn lemma_other_key_fails(key: Seq<u8>, other: Seq<u8>, message: Seq<u8>)
    requires
        other.len() >= KEY_LEN,
        message.len() == other.len(),
        key.take(KEY_LEN as int) != other.take(KEY_LEN as int),
    ensures
        opened(key, sealed(other, message)) is None,
{
    let e = sealed(other, message);
    assert(e.skip(e.len() - KEY_LEN) =~= other.take(KEY_LEN as int));
}

/// The bytes of the scalar 0 or 1.
fn choice_scalar(choice: u8) -> (r: [u8; 32])
    ensures
        r@ == small_scalar(choice),
{
    let r: [u8; 32] = [
        choice, 0, 0, 0, 0, 0, 0, 0, 0, 0, 0, 0, 0, 0, 0, 0, 0, 0, 0, 0, 0, 0, 0, 0, 0, 0, 0, 0, 0,
        0, 0, 0,
    ];
    assert(r@ =~= small_scalar(choice));
    r
}

/// Hashes three points, one after the other.
fn hash(a: &[u8; 32], b: &[u8; 32], c: &[u8; 32]) -> (r: [u8; 32])
    ensures
        r@ == ot_key(a@, b@, c@),
{
    let mut buffer: Vec<u8> = Vec::new();
    buffer.extend_from_slice(a.as_slice());
    buffer.extend_from_slice(b.as_slice());
    buffer.extend_from_slice(c.as_slice());
    assert(buffer@ =~= a@ + b@ + c@);
    blake3_digest(buffer.as_slice())
}

/// Seals one message: the one-time pad with the key, then the tag.
fn seal(key: &Vec<u8>, message: &[u8]) -> (r: Vec<u8>)
    requires
        key.len() >= KEY_LEN,
        message.len() == key.len(),
    ensures
        r@ == sealed(key@, message@),
{
    let mut ciphertext: Vec<u8> = Vec::new();
    let mut i: usize = 0;
    while i < message.len()
        invariant
            i <= message.len(),
            message.len() == key.len(),
            ciphertext.len() == i,
            forall|j: int| 0 <= j < i ==> ciphertext[j] == message[j] ^ key[j],
        decreases message.len() - i,
    {
        ciphertext.push(message[i] ^ key[i]);
        i += 1;
    }
    let mut t: usize = 0;
    while t < KEY_LEN
        invariant
            t <= KEY_LEN,
            key.len() >= KEY_LEN,
            message.len() == key.len(),
            ciphertext.len() == message.len() + t,
            forall|j: int| 0 <= j < message.len() ==> ciphertext[j] == message[j] ^ key[j],
            forall|j: int| 0 <= j < t ==> ciphertext[message.len() + j] == key[j],
        decreases KEY_LEN - t,
    {
        ciphertext.push(key[t]);
        t += 1;
    }
    assert(ciphertext@ =~= sealed(key@, message@));
    ciphertext
}

/// The sender of a transfer. Its scalar stays with it; the point `s` is
/// public.
pub struct Sender {
    y: [u8; 32],
    s: [u8; 32],
    t: [u8; 32],
}

/// The receiver of a transfer. Its scalar stays with it, and so does its
/// choice; what it sends is the blinded choice.
pub struct Receiver {
    choice: Option<u8>,
    x: [u8; 32],
    r: Option<[u8; 32]>,
    s: Option<[u8; 32]>,
}

impl Sender {
    #[verifier::type_invariant]
    spec fn well_formed(self) -> bool {
        &&& self.s@ == ristretto_mul(self.y@, basepoint())
        &&& self.t@ == ristretto_mul(self.y@, self.s@)
        &&& ristretto_valid(self.s@)
        &&& ristretto_valid(self.t@)
    }

    /// The sender's scalar.
    pub closed spec fn secret(self) -> Seq<u8> {
        self.y@
    }

    /// The sender's public point: the generator times its scalar.
    pub closed spec fn public(self) -> Seq<u8> {
        self.s@
    }

    /// The point that the sender keeps to tell the two keys apart: its public
    /// point times its scalar.
    pub closed spec fn offset(self) -> Seq<u8> {
        self.t@
    }

    /// A sender with a fresh scalar.
    pub fn new() -> (r: Self)
        ensures
            r.public() == ristretto_mul(r.secret(), basepoint()),
            r.offset() == ristretto_mul(r.secret(), r.public()),
            ristretto_valid(r.public()),
    {
        let y = random_scalar();
        let s = base_mul(&y);
        let t = point_mul(&y, &s).unwrap();
        Self { y, s, t }
    }

    /// The public point, to be sent to the receiver.
    pub fn s(&self) -> (r: [u8; 32])
        ensures
            r@ == self.public(),
            r@ == ristretto_mul(self.secret(), basepoint()),
            ristretto_valid(r@),
    {
        proof {
            use_type_invariant(self);
        }
        self.s
    }

    /// Derives the two keys from the receiver's blinded choice `r`: key `j`
    /// is the hash of the public point, `r`, and `y` times `r` minus `j` times
    /// the offset. Fails with `OTAbort` exactly when `r` is not a point.
    ///
    /// If `r` is the blinded choice of a receiver with scalar `x` and choice
    /// `j`, key `j` is the hash over the point that the two sides share.
    pub fn derive_keys(&self, blinded_choice: [u8; 32]) -> (r: Result<
        ([u8; 32], [u8; 32]),
        ProtocolError,
    >)
        ensures
            r is Ok <==> ristretto_valid(blinded_choice@),
            r matches Err(e) ==> e == ProtocolError::OTAbort,
            r matches Ok(keys) ==> {
                &&& keys.0@ == ot_key(
                    self.public(),
                    blinded_choice@,
                    ristretto_sub(
                        ristretto_mul(self.secret(), blinded_choice@),
                        ristretto_mul(small_scalar(0), self.offset()),
                    ),
                )
                &&& keys.1@ == ot_key(
                    self.public(),
                    blinded_choice@,
                    ristretto_sub(
                        ristretto_mul(self.secret(), blinded_choice@),
                        ristretto_mul(small_scalar(1), self.offset()),
                    ),
                )
                &&& forall|x: Seq<u8>|
                    #![trigger blinded(x, small_scalar(0), self.public())]
                    blinded_choice@ == blinded(x, small_scalar(0), self.public())
                        && ristretto_valid(ristretto_mul(x, basepoint())) && ristretto_valid(
                        ristretto_mul(small_scalar(0), self.public()),
                    ) ==> keys.0@ == ot_key(
                        self.public(),
                        blinded_choice@,
                        shared(x, self.secret()),
                    )
                &&& forall|x: Seq<u8>|
                    #![trigger blinded(x, small_scalar(1), self.public())]
                    blinded_choice@ == blinded(x, small_scalar(1), self.public())
                        && ristretto_valid(ristretto_mul(x, basepoint())) && ristretto_valid(
                        ristretto_mul(small_scalar(1), self.public()),
                    ) ==> keys.1@ == ot_key(
                        self.public(),
                        blinded_choice@,
                        shared(x, self.secret()),
                    )
            },
    {
        proof {
            use_type_invariant(self);
        }
        let yr = match point_mul(&self.y, &blinded_choice) {
            Some(p) => p,
            None => {
                return Err(ProtocolError::OTAbort);
            },
        };
        let zero = choice_scalar(0);
        let one = choice_scalar(1);
        let t0 = point_mul(&zero, &self.t).unwrap();
        let t1 = point_mul(&one, &self.t).unwrap();
        let p1 = point_sub(&yr, &t0).unwrap();
        let p2 = point_sub(&yr, &t1).unwrap();
        let digest1 = hash(&self.s, &blinded_choice, &p1);
        let digest2 = hash(&self.s, &blinded_choice, &p2);
        proof {
            assert forall|x: Seq<u8>|
                #![trigger blinded(x, small_scalar(0), self.public())]
                blinded_choice@ == blinded(x, small_scalar(0), self.public()) && ristretto_valid(
                    ristretto_mul(x, basepoint()),
                ) && ristretto_valid(
                    ristretto_mul(small_scalar(0), self.public()),
                ) implies p1@ == shared(x, self.secret()) by {
                let a = ristretto_mul(x, basepoint());
                let b = ristretto_mul(small_scalar(0), self.s@);
                assert(blinded_choice@ == ristretto_add(a, b));
                assert(self.t@ == ristretto_mul(self.y@, self.s@));
                assert(yr@ == ristretto_add(ristretto_mul(self.y@, a), t0@));
            }
            assert forall|x: Seq<u8>|
                #![trigger blinded(x, small_scalar(1), self.public())]
                blinded_choice@ == blinded(x, small_scalar(1), self.public()) && ristretto_valid(
                    ristretto_mul(x, basepoint()),
                ) && ristretto_valid(
                    ristretto_mul(small_scalar(1), self.public()),
                ) implies p2@ == shared(x, self.secret()) by {
                let a = ristretto_mul(x, basepoint());
                let b = ristretto_mul(small_scalar(1), self.s@);
                assert(blinded_choice@ == ristretto_add(a, b));
                assert(self.t@ == ristretto_mul(self.y@, self.s@));
                assert(yr@ == ristretto_add(ristretto_mul(self.y@, a), t1@));
            }
        }
        Ok((digest1, digest2))
    }

    /// Seals each message under its key. A message must be as long as its
    /// key, and a key at least `KEY_LEN` bytes long; otherwise the call fails
    /// with `OTAbort`.
    pub fn encrypt(&self, key1: Vec<u8>, key2: Vec<u8>, m1: &[u8], m2: &[u8]) -> (r: Result<
        (Vec<u8>, Vec<u8>),
        ProtocolError,
    >)
        ensures
            r is Ok <==> m1@.len() == key1@.len() && m2@.len() == key2@.len() && key1@.len()
                >= KEY_LEN && key2@.len() >= KEY_LEN,
            r matches Err(e) ==> e == ProtocolError::OTAbort,
            r matches Ok(pair) ==> pair.0@ == sealed(key1@, m1@) && pair.1@ == sealed(key2@, m2@),
    {
        if m1.len() != key1.len() || m2.len() != key2.len() || key1.len() < KEY_LEN || key2.len()
            < KEY_LEN {
            return Err(ProtocolError::OTAbort);
        }
        let ciphertext = seal(&key1, m1);
        let ciphertext2 = seal(&key2, m2);
        Ok((ciphertext, ciphertext2))
    }
}

impl Receiver {
    #[verifier::type_invariant]
    spec fn well_formed(self) -> bool {
        &&& self.r is Some <==> self.s is Some
        &&& self.r is Some <==> self.choice is Some
        &&& self.r matches Some(r) ==> {
            &&& self.choice->0 <= 1
            &&& ristretto_valid(self.s->0@)
            &&& ristretto_valid(r@)
            &&& ristretto_valid(ristretto_mul(self.x@, basepoint()))
            &&& ristretto_valid(ristretto_mul(small_scalar(self.choice->0), self.s->0@))
            &&& r@ == blinded(self.x@, small_scalar(self.choice->0), self.s->0@)
        }
    }

    /// The receiver's scalar.
    pub closed spec fn secret(self) -> Seq<u8> {
        self.x@
    }

    /// The choice that the receiver has made, if it has made one.
    pub closed spec fn chosen(self) -> Option<u8> {
        self.choice
    }

    /// The sender's public point, once the receiver has seen it.
    pub closed spec fn sender_point(self) -> Option<Seq<u8>> {
        match self.s {
            Some(s) => Some(s@),
            None => None,
        }
    }

    /// The blinded choice, once the receiver has made it.
    pub closed spec fn blinded_choice(self) -> Option<Seq<u8>> {
        match self.r {
            Some(r) => Some(r@),
            None => None,
        }
    }

    /// A receiver with a fresh scalar that has not chosen yet.
    pub fn new() -> (r: Self)
        ensures
            r.chosen() is None,
            r.sender_point() is None,
            r.blinded_choice() is None,
    {
        Self::with_scalar(random_scalar())
    }

    /// A receiver with the scalar `x` that has not chosen yet.
    pub fn with_scalar(x: [u8; 32]) -> (r: Self)
        ensures
            r.secret() == x@,
            r.chosen() is None,
            r.sender_point() is None,
            r.blinded_choice() is None,
    {
        Self { x, r: None, choice: None, s: None }
    }

    /// Makes the choice and blinds it for the sender with public point `s`.
    /// Fails with `OTAbort`, and changes nothing, exactly when `s` is not a
    /// point or the choice is neither 0 nor 1.
    pub fn make_choice(&mut self, s: &[u8; 32], choice: u8) -> (r: Result<[u8; 32], ProtocolError>)
        ensures
            final(self).secret() == old(self).secret(),
            r is Ok <==> ristretto_valid(s@) && choice <= 1,
            r matches Err(e) ==> e == ProtocolError::OTAbort && *final(self) == *old(self),
            r matches Ok(blind) ==> {
                &&& blind@ == blinded(old(self).secret(), small_scalar(choice), s@)
                &&& ristretto_valid(blind@)
                &&& ristretto_valid(ristretto_mul(old(self).secret(), basepoint()))
                &&& ristretto_valid(ristretto_mul(small_scalar(choice), s@))
                &&& final(self).chosen() == Some(choice)
                &&& final(self).sender_point() == Some(s@)
                &&& final(self).blinded_choice() == Some(blind@)
            },
    {
        if choice > 1 {
            return Err(ProtocolError::OTAbort);
        }
        let scalar_choice = choice_scalar(choice);
        let cs = match point_mul(&scalar_choice, s) {
            Some(p) => p,
            None => {
                return Err(ProtocolError::OTAbort);
            },
        };
        let xb = base_mul(&self.x);
        let r = point_add(&xb, &cs).unwrap();
        *self = Receiver { choice: Some(choice), x: self.x, r: Some(r), s: Some(*s) };
        Ok(r)
    }

    /// Derives the key of the chosen message: the hash of the sender's public
    /// point, the blinded choice, and the sender's public point times the
    /// receiver's scalar. Fails with `OTAbort` exactly when no choice was made.
    ///
    /// If the sender's public point is the generator times `y`, the key is the
    /// hash over the point that the two sides share.
    pub fn derive_key(&mut self) -> (r: Result<[u8; 32], ProtocolError>)
        ensures
            *final(self) == *old(self),
            r is Ok <==> old(self).chosen() is Some,
            r matches Err(e) ==> e == ProtocolError::OTAbort,
            r matches Ok(key) ==> {
                &&& old(self).sender_point() is Some
                &&& old(self).blinded_choice() is Some
                &&& key@ == ot_key(
                    old(self).sender_point()->0,
                    old(self).blinded_choice()->0,
                    ristretto_mul(old(self).secret(), old(self).sender_point()->0),
                )
                &&& forall|y: Seq<u8>|
                    old(self).sender_point()->0 == #[trigger] ristretto_mul(y, basepoint())
                        ==> key@ == ot_key(
                        old(self).sender_point()->0,
                        old(self).blinded_choice()->0,
                        shared(old(self).secret(), y),
                    )
            },
    {
        proof {
            use_type_invariant(&*self);
        }
        match (self.s, self.r) {
            (Some(s), Some(r)) => {
                let xs = point_mul(&self.x, &s).unwrap();
                Ok(hash(&s, &r, &xs))
            },
            _ => Err(ProtocolError::OTAbort),
        }
    }

    /// Opens one ciphertext: checks the tag and takes the pad off.
    fn decrypt(&self, key: &[u8], ciphertext: &[u8]) -> (r: Option<Vec<u8>>)
        ensures
            match r {
                Some(m) => opened(key@, ciphertext@) == Some(m@),
                None => opened(key@, ciphertext@) is None,
            },
    {
        if key.len() < KEY_LEN || ciphertext.len() < KEY_LEN || ciphertext.len() - KEY_LEN
            > key.len() {
            return None;
        }
        let n: usize = ciphertext.len() - KEY_LEN;
        let mut t: usize = 0;
        while t < KEY_LEN
            invariant
                t <= KEY_LEN,
                key.len() >= KEY_LEN,
                ciphertext.len() == n + KEY_LEN,
                forall|j: int| 0 <= j < t ==> key[j] == ciphertext[n + j],
            decreases KEY_LEN - t,
        {
            if key[t] != ciphertext[n + t] {
                assert(key@.take(KEY_LEN as int)[t as int] != ciphertext@.skip(n as int)[t as int]);
                return None;
            }
            t += 1;
        }
        assert(key@.take(KEY_LEN as int) =~= ciphertext@.skip(n as int));
        let mut message: Vec<u8> = Vec::new();
        let mut i: usize = 0;
        while i < n
            invariant
                i <= n,
                n <= key.len(),
                ciphertext.len() == n + KEY_LEN,
                message.len() == i,
                forall|j: int| 0 <= j < i ==> message[j] == ciphertext[j] ^ key[j],
            decreases n - i,
        {
            message.push(ciphertext[i] ^ key[i]);
            i += 1;
        }
        assert(message@ =~= xor_bytes(ciphertext@.take(n as int), key@));
        Some(message)
    }

    /// Opens the ciphertext of the chosen message with `key`. Gives nothing
    /// when no choice was made or the tag of that ciphertext does not fit the
    /// key.
    pub fn decrypt_ciphertexts(&self, key: [u8; 32], ciphertexts: (Vec<u8>, Vec<u8>)) -> (r:
        Option<Vec<u8>>)
        ensures
            self.chosen() is None ==> r is None,
            self.chosen() == Some(0u8) ==> (match r {
                Some(m) => opened(key@, ciphertexts.0@) == Some(m@),
                None => opened(key@, ciphertexts.0@) is None,
            }),
            self.chosen() == Some(1u8) ==> (match r {
                Some(m) => opened(key@, ciphertexts.1@) == Some(m@),
                None => opened(key@, ciphertexts.1@) is None,
            }),
    {
        proof {
            use_type_invariant(self);
        }
        match self.choice {
            Some(c) => {
                if c == 0 {
                    self.decrypt(key.as_slice(), ciphertexts.0.as_slice())
                } else {
                    self.decrypt(key.as_slice(), ciphertexts.1.as_slice())
                }
            },
            None => None,
        }
    }
}

/// Runs one transfer between a sender and a receiver that live in the same
/// process: the receiver chooses, the sender derives both keys and seals
/// both messages, the receiver derives its key and opens the ciphertext of
/// its choice.
///
/// The transfer succeeds exactly when the choice is 0 or 1 and both
/// messages have `KEY_LEN` bytes, and the receiver then gets the message of
/// its choice.
pub fn transfer(sender: &Sender, receiver: &mut Receiver, choice: u8, m0: &Vec<u8>, m1: &Vec<u8>) -> (r:
    Result<Vec<u8>, ProtocolError>)
    ensures
        r is Ok <==> choice <= 1 && m0.len() == KEY_LEN && m1.len() == KEY_LEN,
        r matches Err(e) ==> e == ProtocolError::OTAbort,
        r matches Ok(m) ==> m@ == if choice == 0 {
            m0@
        } else {
            m1@
        },
{
    let s = sender.s();
    let blind = match receiver.make_choice(&s, choice) {
        Ok(blind) => blind,
        Err(e) => {
            return Err(e);
        },
    };
    let keys = sender.derive_keys(blind).unwrap();
    let k0 = vstd::slice::slice_to_vec(keys.0.as_slice());
    let k1 = vstd::slice::slice_to_vec(keys.1.as_slice());
    let ciphertexts = match sender.encrypt(k0, k1, m0.as_slice(), m1.as_slice()) {
        Ok(pair) => pair,
        Err(e) => {
            return Err(e);
        },
    };
    let key = receiver.derive_key().unwrap();
    proof {
        assert(blinded(receiver.secret(), small_scalar(choice), sender.public()) == blind@);
        assert(sender.public() == ristretto_mul(sender.secret(), basepoint()));
        if choice == 0 {
            assert(key@ == keys.0@);
            lemma_open_sealed(keys.0@, m0@);
        } else {
            assert(key@ == keys.1@);
            lemma_open_sealed(keys.1@, m1@);
        }
    }
    Ok(receiver.decrypt_ciphertexts(key, ciphertexts).unwrap())
}

} // verus!
