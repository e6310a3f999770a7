//! The cryptographic building blocks, each a single call into the crate that
//! implements it. Nothing in this file is proved: every contract here is a
//! statement about code that lives elsewhere, and the rest of the library is
//! verified against these statements.
use base64::engine::general_purpose::URL_SAFE;
use base64::Engine;
use fernet::Fernet;
use hmac::Hmac;
use hmac::Mac;
use rand::seq::SliceRandom;
use sha2::Sha256;
use vstd::prelude::*;
use vstd::utf8::{decode_utf8, valid_utf8};

verus! {

/// The URL-safe, padded base64 text of a byte string.
pub uninterp spec fn url_safe_encode(bytes: Seq<u8>) -> Seq<char>;

/// The bytes that a URL-safe, padded base64 text stands for, if it is one.
pub uninterp spec fn url_safe_decode(text: Seq<char>) -> Option<Seq<u8>>;

/// The HMAC-SHA256 tag of `message` under `key`.
pub uninterp spec fn hmac_sha256(key: Seq<u8>, message: Seq<u8>) -> Seq<u8>;

/// Whether a text is accepted as a Fernet key.
pub uninterp spec fn fernet_key_valid(key: Seq<char>) -> bool;

/// The plaintext that a Fernet token carries for a key: what decryption
/// yields whenever it accepts the token. A token can be refused for its age
/// alone, so this is the content of the token, not a promise that a given
/// attempt to open it succeeds.
pub uninterp spec fn fernet_open(key: Seq<char>, token: Seq<char>) -> Option<Seq<u8>>;

/// Calls `base64::Engine::encode` on the `URL_SAFE` engine. Claims that the
/// result is the encoding of the input and that decoding it gives the input
/// back.
#[verifier::external_body]
pub(crate) fn base64_encode(bytes: &[u8]) -> (text: String)
    ensures
        text@ == url_safe_encode(bytes@),
        url_safe_decode(text@) == Some(bytes@),
{
    URL_SAFE.encode(bytes)
}

/// Calls `base64::Engine::decode` on the `URL_SAFE` engine. Claims that the
/// result is the decoding of the text, and `None` where the engine refuses it.
#[verifier::external_body]
pub(crate) fn base64_decode(text: &str) -> (bytes: Option<Vec<u8>>)
    ensures
        match bytes {
            Some(b) => url_safe_decode(text@) == Some(b@),
            None => url_safe_decode(text@) is None,
        },
{
    match URL_SAFE.decode(text) {
        Ok(b) => Some(b),
        Err(_) => None,
    }
}

/// Computes an HMAC-SHA256 tag with `hmac::Hmac<sha2::Sha256>`: keyed with
/// `Mac::new_from_slice`, fed with `Mac::update`, read with `Mac::finalize`.
/// Claims that the result is the tag of the message under the key and that a
/// tag has 32 bytes. HMAC takes a key of any length.
#[verifier::external_body]
pub(crate) fn hmac_tag(key: &[u8], message: &[u8]) -> (tag: Vec<u8>)
    ensures
        tag@ == hmac_sha256(key@, message@),
        tag@.len() == 32,
{
    let mut mac = Hmac::<Sha256>::new_from_slice(key).expect("HMAC takes a key of any size");
    mac.update(message);
    mac.finalize().into_bytes().to_vec()
}

/// Calls `fernet::Fernet::generate_key`. The key is random; claims only that
/// it is the base64 text of 32 bytes: it decodes to 32 bytes, and encoding
/// those gives the key back.
#[verifier::external_body]
pub(crate) fn fernet_fresh_key() -> (key: String)
    ensures
        url_safe_decode(key@) is Some,
        url_safe_decode(key@)->0.len() == 32,
        key@ == url_safe_encode(url_safe_decode(key@)->0),
{
    Fernet::generate_key()
}

/// Calls `fernet::Fernet::new` and then `fernet::Fernet::encrypt`. The token
/// depends on a random nonce and on the clock; claims that a token is made
/// exactly when the key is accepted, that the base64 text of any 32 bytes is
/// accepted, and that the token carries the data for that key.
#[verifier::external_body]
pub(crate) fn fernet_seal(key: &str, data: &[u8]) -> (token: Option<String>)
    ensures
        token is Some <==> fernet_key_valid(key@),
        (exists|k: Seq<u8>| k.len() == 32 && key@ == url_safe_encode(k)) ==> token is Some,
        token matches Some(t) ==> fernet_open(key@, t@) == Some(data@),
{
    match Fernet::new(key) {
        Some(f) => Some(f.encrypt(data)),
        None => None,
    }
}

/// Calls `fernet::Fernet::new` and then `fernet::Fernet::decrypt`. Decryption
/// also consults the clock, so nothing is claimed of a refusal; claims that
/// what comes out of an accepted token is what the token carries for the key.
#[verifier::external_body]
pub(crate) fn fernet_unseal(key: &str, token: &str) -> (data: Option<Vec<u8>>)
    ensures
        data matches Some(d) ==> fernet_key_valid(key@) && fernet_open(key@, token@) == Some(d@),
{
    match Fernet::new(key) {
        Some(f) => match f.decrypt(token) {
            Ok(d) => Some(d),
            Err(_) => None,
        },
        None => None,
    }
}

/// Calls `rand::seq::SliceRandom::shuffle` with the thread's generator.
/// Claims that the rows are rearranged: none is added, lost or changed.
#[verifier::external_body]
pub(crate) fn shuffle_rows(rows: &mut Vec<String>)
    ensures
        final(rows)@.to_multiset() == old(rows)@.to_multiset(),
{
    rows.shuffle(&mut rand::thread_rng());
}

/// Calls `std::str::from_utf8`. Claims that it accepts exactly the valid
/// UTF-8 byte strings and returns the text that they encode.
#[verifier::external_body]
pub(crate) fn utf8_text(bytes: &[u8]) -> (text: Option<String>)
    ensures
        text is Some <==> valid_utf8(bytes@),
        text matches Some(t) ==> t@ == decode_utf8(bytes@),
{
    match std::str::from_utf8(bytes) {
        Ok(s) => Some(s.to_string()),
        Err(_) => None,
    }
}

} // verus!
