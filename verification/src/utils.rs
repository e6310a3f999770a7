//! Gate kinds, the netlist type and the small pure helpers shared by the
//! garbler and the evaluator.
use crate::primitives::{
    base64_decode, base64_encode, fernet_fresh_key, fernet_key_valid, fernet_open, fernet_seal,
    fernet_unseal, hmac_sha256, hmac_tag, url_safe_decode, url_safe_encode,
};
pub use crate::netlist::topo_sort_wires;
use std::collections::BTreeMap;
use vstd::prelude::*;
use vstd::std_specs::cmp::OrdSpec;
use vstd::std_specs::iter::IteratorSpec;
use vstd::utf8::encode_utf8;

verus! {

/// The kinds of gate a netlist can hold.
#[derive(Debug, PartialEq, Eq, Structural, Clone, Copy)]
pub enum GateType {
    AND,
    NOT,
    OR,
    XOR,
    /// `a` or not `b`.
    ORNOT,
    NOR,
    NAND,
    /// `a` and not `b`.
    ANDNOT,
    XNOR,
    /// Always 1, whatever its input.
    CONST_1,
    /// Always 0, whatever its input.
    CONST_0,
    /// Passes its input on.
    CONST,
    /// No gate: the wire is an input of the netlist.
    INPUT,
}

/// The kind that a cell library's name stands for.
pub open spec fn cell_kind(name: Seq<char>) -> Option<GateType> {
    if name == "$_AND_"@ {
        Some(GateType::AND)
    } else if name == "$_OR_"@ {
        Some(GateType::OR)
    } else if name == "$_NOT_"@ {
        Some(GateType::NOT)
    } else if name == "$_XOR_"@ {
        Some(GateType::XOR)
    } else if name == "$_NOR_"@ {
        Some(GateType::NOR)
    } else if name == "$_NAND_"@ {
        Some(GateType::NAND)
    } else if name == "$_ANDNOT_"@ {
        Some(GateType::ANDNOT)
    } else if name == "$_ORNOT_"@ {
        Some(GateType::ORNOT)
    } else if name == "$_XNOR_"@ {
        Some(GateType::XNOR)
    } else {
        None
    }
}

/// The name of a kind.
pub open spec fn kind_name(kind: GateType) -> Seq<char> {
    match kind {
        GateType::AND => "AND"@,
        GateType::NOT => "NOT"@,
        GateType::OR => "OR"@,
        GateType::XOR => "XOR"@,
        GateType::ORNOT => "ORNOT"@,
        GateType::NOR => "NOR"@,
        GateType::NAND => "NAND"@,
        GateType::ANDNOT => "ANDNOT"@,
        GateType::XNOR => "XNOR"@,
        GateType::CONST_1 => "CONST_1"@,
        GateType::CONST_0 => "CONST_0"@,
        GateType::CONST => "CONST"@,
        GateType::INPUT => "INPUT"@,
    }
}

impl std::str::FromStr for GateType {
    type Err = ();

    /// Reads the name that a cell library gives a kind, such as `$_AND_`, and
    /// fails exactly on a text that names none.
    fn from_str(s: &str) -> (r: Result<Self, Self::Err>)
        ensures
            r == match cell_kind(s@) {
                Some(kind) => Ok::<GateType, ()>(kind),
                None => Err::<GateType, ()>(()),
            },
    {
        match GateType::from_name(s) {
            Some(kind) => Ok(kind),
            None => Err(()),
        }
    }
}

/// A netlist: each defined wire with the kind of gate that drives it and the
/// wires that this gate reads, in order.
pub type Circuit = BTreeMap<u64, (GateType, Vec<u64>)>;

impl GateType {
    /// The truth table of every kind. A kind that reads fewer than two inputs
    /// ignores the ones it does not read.
    pub open spec fn output(self, a: bool, b: bool) -> bool {
        match self {
            GateType::AND => a && b,
            GateType::OR => a || b,
            GateType::NOR => !(a || b),
            GateType::ORNOT => a || !b,
            GateType::NAND => !(a && b),
            GateType::ANDNOT => a && !b,
            GateType::XNOR => a == b,
            GateType::XOR => a != b,
            GateType::NOT => !a,
            GateType::CONST_0 => false,
            GateType::CONST_1 => true,
            GateType::CONST => a,
            GateType::INPUT => a,
        }
    }

    /// How many input wires a gate of this kind reads when it is garbled.
    /// `INPUT` wires are never garbled and read nothing; the constant kinds are
    /// garbled as one-input gates whose table ignores the input. A netlist
    /// may also hold a constant that reads nothing; it has no labels to key
    /// its rows by and cannot be garbled.
    pub open spec fn fan_in(self) -> nat {
        match self {
            GateType::INPUT => 0,
            GateType::NOT | GateType::CONST | GateType::CONST_0 | GateType::CONST_1 => 1,
            _ => 2,
        }
    }

    /// Reads the name that a cell library gives a kind, such as `$_AND_`.
    pub fn from_name(s: &str) -> (r: Option<GateType>)
        ensures
            r == cell_kind(s@),
    {
        let name = s.to_owned();
        if name == "$_AND_".to_owned() {
            Some(GateType::AND)
        } else if name == "$_OR_".to_owned() {
            Some(GateType::OR)
        } else if name == "$_NOT_".to_owned() {
            Some(GateType::NOT)
        } else if name == "$_XOR_".to_owned() {
            Some(GateType::XOR)
        } else if name == "$_NOR_".to_owned() {
            Some(GateType::NOR)
        } else if name == "$_NAND_".to_owned() {
            Some(GateType::NAND)
        } else if name == "$_ANDNOT_".to_owned() {
            Some(GateType::ANDNOT)
        } else if name == "$_ORNOT_".to_owned() {
            Some(GateType::ORNOT)
        } else if name == "$_XNOR_".to_owned() {
            Some(GateType::XNOR)
        } else {
            None
        }
    }

    /// The name of the kind, as it is written.
    pub fn name(&self) -> (r: String)
        ensures
            r@ == kind_name(*self),
    {
        match self {
            GateType::AND => "AND".to_owned(),
            GateType::NOT => "NOT".to_owned(),
            GateType::OR => "OR".to_owned(),
            GateType::XOR => "XOR".to_owned(),
            GateType::ORNOT => "ORNOT".to_owned(),
            GateType::NOR => "NOR".to_owned(),
            GateType::NAND => "NAND".to_owned(),
            GateType::ANDNOT => "ANDNOT".to_owned(),
            GateType::XNOR => "XNOR".to_owned(),
            GateType::CONST_1 => "CONST_1".to_owned(),
            GateType::CONST_0 => "CONST_0".to_owned(),
            GateType::CONST => "CONST".to_owned(),
            GateType::INPUT => "INPUT".to_owned(),
        }
    }

    /// Executable form of [`GateType::fan_in`].
    pub fn garbled_arity(self) -> (n: usize)
        ensures
            n == self.fan_in(),
    {
        match self {
            GateType::INPUT => 0,
            GateType::NOT | GateType::CONST | GateType::CONST_0 | GateType::CONST_1 => 1,
            _ => 2,
        }
    }
}

/// Byte-wise XOR of two buffers, as long as the shorter of them.
pub open spec fn xor_bytes(a: Seq<u8>, b: Seq<u8>) -> Seq<u8> {
    Seq::new(
        if a.len() <= b.len() {
            a.len()
        } else {
            b.len()
        },
        |i: int| a[i] ^ b[i],
    )
}

/// XORs `a` and `b` byte by byte. For buffers of equal length this is the XOR
/// of the two; otherwise the longer one is cut to the shorter.
pub fn bytes_xor(a: &Vec<u8>, b: &Vec<u8>) -> (r: Vec<u8>)
    ensures
        r@ == xor_bytes(a@, b@),
{
    let n: usize = if a.len() <= b.len() {
        a.len()
    } else {
        b.len()
    };
    let mut r: Vec<u8> = Vec::new();
    let mut i: usize = 0;
    while i < n
        invariant
            i <= n,
            n <= a.len(),
            n <= b.len(),
            r.len() == i,
            forall|j: int| 0 <= j < i ==> r[j] == a[j] ^ b[j],
        decreases n - i,
    {
        r.push(a[i] ^ b[i]);
        i += 1;
    }
    assert(r@ =~= xor_bytes(a@, b@));
    r
}

/// XOR with the same buffer twice gives the first buffer back.
pub proof fn lemma_xor_cancel(a: Seq<u8>, b: Seq<u8>)
    requires
        a.len() == b.len(),
    ensures
        xor_bytes(xor_bytes(a, b), b) == a,
{
    assert forall|i: int| 0 <= i < a.len() implies (a[i] ^ b[i]) ^ b[i] == a[i] by {
        let x = a[i];
        let y = b[i];
        assert((x ^ y) ^ y == x) by (bit_vector);
    }
    assert(xor_bytes(xor_bytes(a, b), b) =~= a);
}

/// Bit `i` of `value`, counted from the least significant; bits past the
/// width of the integer are zero.
pub open spec fn bit_at(value: u64, i: int) -> bool {
    0 <= i < 64 && (value >> (i as u64)) & 1 == 1
}

/// The assignment that gives wire `keys[i]` bit `i` of `value`. A wire that
/// is listed more than once keeps the bit of its last position.
pub open spec fn wire_bits(keys: Seq<u64>, value: u64) -> Map<u64, bool>
    decreases keys.len(),
{
    if keys.len() == 0 {
        Map::empty()
    } else {
        wire_bits(keys.drop_last(), value).insert(keys.last(), bit_at(value, keys.len() - 1))
    }
}

/// Spreads the bits of `value` over `input_keys`, least significant bit
/// first. Wires beyond the width of `value` get zero.
pub fn wire_values(input_keys: &Vec<u64>, value: u64) -> (r: BTreeMap<u64, bool>)
    ensures
        r@ == wire_bits(input_keys@, value),
{
    broadcast use vstd::std_specs::btree::group_btree_axioms;

    let mut r: BTreeMap<u64, bool> = BTreeMap::new();
    let mut i: usize = 0;
    assert(input_keys@.take(0) =~= Seq::<u64>::empty());
    while i < input_keys.len()
        invariant
            i <= input_keys.len(),
            r@ == wire_bits(input_keys@.take(i as int), value),
        decreases input_keys.len() - i,
    {
        let bit: bool = if i < 64 {
            (value >> (i as u64)) & 1 == 1
        } else {
            false
        };
        let ghost prefix = input_keys@.take(i as int + 1);
        assert(prefix.drop_last() =~= input_keys@.take(i as int));
        assert(prefix.last() == input_keys@[i as int]);
        r.insert(input_keys[i], bit);
        i += 1;
    }
    assert(input_keys@.take(i as int) =~= input_keys@);
    r
}

/// The length of a label in bytes.
pub const LABEL_LEN: usize = 32;

/// The bytes behind a label's text: a label is the base64 text of
/// `LABEL_LEN` bytes.
pub open spec fn label_bytes(text: Seq<char>) -> Option<Seq<u8>> {
    match url_safe_decode(text) {
        Some(b) => if b.len() == LABEL_LEN {
            Some(b)
        } else {
            None
        },
        None => None,
    }
}

/// Whether a text is a label.
pub open spec fn is_label(text: Seq<char>) -> bool {
    label_bytes(text) is Some
}

/// Whether a text is the encoding of the bytes it stands for.
pub open spec fn canonical(text: Seq<char>) -> bool {
    url_safe_decode(text) matches Some(b) && url_safe_encode(b) == text
}

/// Whether two labels differ by exactly `delta`: the second is the first
/// XOR `delta`, byte by byte, and both are written in the one way in which
/// the encoder writes their bytes.
pub open spec fn offset_pair(zero: Seq<char>, one: Seq<char>, delta: Seq<char>) -> bool {
    &&& is_label(zero)
    &&& is_label(one)
    &&& is_label(delta)
    &&& canonical(zero)
    &&& canonical(one)
    &&& label_bytes(one)->0 == xor_bytes(label_bytes(zero)->0, label_bytes(delta)->0)
}

/// Whether an offset has a bit set. With the all-zero offset the two labels
/// of a wire would be the same.
pub open spec fn nonzero(delta: Seq<char>) -> bool {
    exists|i: int| 0 <= i < LABEL_LEN && #[trigger] label_bytes(delta)->0[i] != 0
}

/// Reads a label's bytes, or `None` where the text is not a label.
pub fn decode_label(text: &String) -> (r: Option<Vec<u8>>)
    ensures
        match r {
            Some(b) => label_bytes(text@) == Some(b@),
            None => !is_label(text@),
        },
{
    match base64_decode(text.as_str()) {
        Some(b) => if b.len() == LABEL_LEN {
            Some(b)
        } else {
            None
        },
        None => None,
    }
}

/// Samples a fresh label for the value 0 and derives the label for 1 from it
/// by XOR with `delta`. Returns `None` exactly when `delta` is not a label.
pub fn generate_keys(delta: &String) -> (r: Option<(String, String)>)
    ensures
        r is Some <==> is_label(delta@),
        r matches Some(pair) ==> offset_pair(pair.0@, pair.1@, delta@),
{
    match decode_label(delta) {
        None => None,
        Some(z) => {
            let zero = fernet_fresh_key();
            let y = decode_label(&zero).unwrap();
            let xored = bytes_xor(&y, &z);
            let one = base64_encode(xored.as_slice());
            Some((zero, one))
        },
    }
}

/// All the buffers of `parts`, one after the other.
pub open spec fn joined(parts: Seq<Vec<u8>>) -> Seq<u8>
    decreases parts.len(),
{
    if parts.len() == 0 {
        Seq::empty()
    } else {
        joined(parts.drop_last()) + parts.last()@
    }
}

/// The tag that keys one row of a gate's table: the HMAC-SHA256 of the
/// remaining parts, taken in order, under the first part as the key.
pub open spec fn row_tag(parts: Seq<Vec<u8>>) -> Seq<u8> {
    hmac_sha256(parts[0]@, joined(parts.skip(1)))
}

/// Derives a symmetric key from an ordered list of byte strings: the first
/// is the MAC key, the others are fed to the MAC in order.
pub fn generate_encryption_key(keys: &Vec<Vec<u8>>) -> (r: Vec<u8>)
    requires
        keys.len() >= 1,
    ensures
        r@ == row_tag(keys@),
        r@.len() == LABEL_LEN,
{
    let mut message: Vec<u8> = Vec::new();
    let mut i: usize = 1;
    assert(keys@.skip(1).take(0) =~= Seq::<Vec<u8>>::empty());
    while i < keys.len()
        invariant
            1 <= i <= keys.len(),
            message@ == joined(keys@.skip(1).take(i - 1)),
        decreases keys.len() - i,
    {
        let ghost next = keys@.skip(1).take(i as int);
        assert(next.drop_last() =~= keys@.skip(1).take(i - 1));
        assert(next.last() == keys@[i as int]);
        message.extend_from_slice(keys[i].as_slice());
        i += 1;
    }
    assert(keys@.skip(1).take(i - 1) =~= keys@.skip(1));
    hmac_tag(keys[0].as_slice(), message.as_slice())
}

/// Encrypts `data` under a key given as text. Returns `None` exactly when the
/// text is not an acceptable key; a token carries the data for its key.
pub fn encrypt(key: &String, data: Vec<u8>) -> (r: Option<String>)
    ensures
        r is Some <==> fernet_key_valid(key@),
        r matches Some(token) ==> fernet_open(key@, token@) == Some(data@),
{
    fernet_seal(key.as_str(), data.as_slice())
}

/// Tries to open a token with a key given as text. A wrong key, a token that
/// was tampered with or one that is too old gives `None`; what comes out of
/// an accepted token is what it carries for the key.
pub fn decrypt(key: String, data: String) -> (r: Option<Vec<u8>>)
    ensures
        r matches Some(plain) ==> fernet_key_valid(key@) && fernet_open(key@, data@) == Some(
            plain@,
        ),
{
    fernet_unseal(key.as_str(), data.as_str())
}

/// The text of the key under which the row for the given input labels is
/// encrypted: the labels' text goes into the MAC, first label as its key.
pub open spec fn row_key(labels: Seq<Seq<char>>) -> Seq<char> {
    url_safe_encode(
        hmac_sha256(
            encode_utf8(labels[0]),
            joined_text(labels.skip(1)),
        ),
    )
}

/// The UTF-8 bytes of all the texts, one after the other.
pub open spec fn joined_text(texts: Seq<Seq<char>>) -> Seq<u8>
    decreases texts.len(),
{
    if texts.len() == 0 {
        Seq::empty()
    } else {
        joined_text(texts.drop_last()) + encode_utf8(texts.last())
    }
}

/// Derives the key of the row that belongs to the given input labels.
pub fn derive_row_key(labels: &Vec<String>) -> (r: String)
    requires
        labels.len() >= 1,
    ensures
        r@ == row_key(labels@.map_values(|l: String| l@)),
        exists|k: Seq<u8>| k.len() == LABEL_LEN && r@ == url_safe_encode(k),
{
    let ghost texts = labels@.map_values(|l: String| l@);
    let mut parts: Vec<Vec<u8>> = Vec::new();
    let mut i: usize = 0;
    while i < labels.len()
        invariant
            i <= labels.len(),
            parts.len() == i,
            forall|j: int| 0 <= j < i ==> parts[j]@ == encode_utf8(labels[j]@),
        decreases labels.len() - i,
    {
        parts.push(labels[i].as_str().as_bytes_vec());
        i += 1;
    }
    proof {
        lemma_joined_prefix(parts@, texts, 1);
    }
    let tag = generate_encryption_key(&parts);
    base64_encode(tag.as_slice())
}

/// The first of two values is the smaller, by the order of their type.
pub open spec fn comes_before<K: Ord>(a: K, b: K) -> bool {
    a.cmp_spec(&b) is Less
}

/// The keys of a map in the order in which the map hands them out.
pub open spec fn key_order<V>(map: &BTreeMap<u64, V>) -> Seq<u64> {
    vstd::std_specs::btree::into_iter_keys(map.keys())
}

/// The map hands out each of its keys once, in increasing order.
pub open spec fn keys_increase<V>(map: &BTreeMap<u64, V>) -> bool {
    &&& key_order(map).to_set() == map@.dom()
    &&& forall|i: int, j: int|
        0 <= i < j < key_order(map).len() ==> key_order(map)[i] < key_order(map)[j]
}

/// The wires for which a map has an entry, each once, in increasing order.
pub fn wires_of<V>(map: &BTreeMap<u64, V>) -> (r: Vec<u64>)
    ensures
        r@ == key_order(map),
        keys_increase(map),
        r@.no_duplicates(),
        r@.to_set() == map@.dom(),
        forall|i: int, j: int| 0 <= i < j < r@.len() ==> r@[i] < r@[j],
{
    broadcast use vstd::std_specs::btree::group_btree_axioms;
    broadcast use vstd::laws_cmp::group_laws_cmp;

    let mut r: Vec<u64> = Vec::new();
    let ghost all: Seq<u64> = map.keys().remaining().unref();
    let iter = map.keys();
    assert(all == key_order(map));
    proof {
        let refs = map.keys().remaining();
        assert(vstd::std_specs::btree::increasing_seq(refs));
        assert(vstd::laws_cmp::obeys_cmp::<u64>());
        assert(vstd::laws_cmp::obeys_cmp::<&u64>());
        vstd::std_specs::btree::axiom_increasing_seq_meaning::<&u64>(refs);
        assert forall|i: int, j: int| 0 <= i < j < all.len() implies all[i] < all[j] by {
            assert(comes_before(refs[i], refs[j]));
            assert(all[i] == *refs[i] && all[j] == *refs[j]);
        }
    }

    for k in it: iter
        invariant
            it.seq().unref() == all,
            r@.len() == it.index(),
            forall|j: int| 0 <= j < r@.len() ==> r@[j] == all[j],
            all.to_set() == map@.dom(),
            all.no_duplicates(),
            forall|i: int, j: int| 0 <= i < j < all.len() ==> all[i] < all[j],
    {
        r.push(*k);
    }
    assert(r@ =~= all);
    r
}

/// A copy of a list of wires.
pub fn copy_wires(wires: &Vec<u64>) -> (r: Vec<u64>)
    ensures
        r@ == wires@,
{
    let mut r: Vec<u64> = Vec::new();
    let mut i: usize = 0;
    while i < wires.len()
        invariant
            i <= wires.len(),
            r@ == wires@.take(i as int),
        decreases wires.len() - i,
    {
        r.push(wires[i]);
        assert(wires@.take(i as int + 1) =~= wires@.take(i as int).push(wires@[i as int]));
        i += 1;
    }
    assert(wires@.take(i as int) =~= wires@);
    r
}

/// Joining buffers that hold the UTF-8 bytes of some texts gives the joined
/// bytes of those texts.
proof fn lemma_joined_prefix(parts: Seq<Vec<u8>>, texts: Seq<Seq<char>>, from: int)
    requires
        parts.len() == texts.len(),
        0 <= from <= parts.len(),
        forall|j: int| 0 <= j < parts.len() ==> parts[j]@ == encode_utf8(texts[j]),
    ensures
        joined(parts.skip(from)) == joined_text(texts.skip(from)),
    decreases parts.len(),
{
    let p = parts.skip(from);
    let t = texts.skip(from);
    if p.len() == 0 {
    } else {
        lemma_joined_prefix(parts.drop_last(), texts.drop_last(), from);
        assert(p.drop_last() =~= parts.drop_last().skip(from));
        assert(t.drop_last() =~= texts.drop_last().skip(from));
    }
}

} // verus!
