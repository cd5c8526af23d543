//! The cryptographic primitives the wallet builds on, all provided by
//! `cryptoxide`. Each result is given a name that depends only on the
//! arguments, and the lengths the crate documents.
use vstd::prelude::*;
use cryptoxide::mac::Mac;
use cryptoxide::curve25519::{Ge, Scalar};
use crate::scalar::{le_val, pow256};

verus! {

/// The byte sequence held by an optional buffer.
pub open spec fn bytes_opt(o: Option<Vec<u8>>) -> Option<Seq<u8>> {
    match o {
        Some(v) => Some(v@),
        None => None,
    }
}

/// HMAC-SHA512 of `msg` under `key`.
pub uninterp spec fn hmac_sha512_of(key: Seq<u8>, msg: Seq<u8>) -> Seq<u8>;

/// SHA-512 digest of `msg`.
pub uninterp spec fn sha512_of(msg: Seq<u8>) -> Seq<u8>;

/// BLAKE2b digest of `msg` with a 256-bit output.
pub uninterp spec fn blake2b_256_of(msg: Seq<u8>) -> Seq<u8>;

/// Ed25519 public key of a 64-byte extended secret.
pub uninterp spec fn ed25519_public_of(extended: Seq<u8>) -> Seq<u8>;

/// Ed25519 signature of `msg` under a 64-byte extended secret.
pub uninterp spec fn ed25519_sign_of(extended: Seq<u8>, msg: Seq<u8>) -> Seq<u8>;

/// Whether `sig` is a valid Ed25519 signature of `msg` under `public`.
pub uninterp spec fn ed25519_verify_of(public: Seq<u8>, msg: Seq<u8>, sig: Seq<u8>) -> bool;

/// The point `P + s*B` for the compressed point `P` and the little-endian
/// scalar `s`; `None` when `P` does not decode to a curve point.
pub uninterp spec fn point_add_base_mul_of(point: Seq<u8>, scalar: Seq<u8>) -> Option<Seq<u8>>;

/// The order of the Ed25519 base point, `2^252 + 27742317777372353535851937790883648493`.
pub open spec fn group_order() -> nat {
    16 * pow256(31) + 27742317777372353535851937790883648493
}

/// The canonical 32 bytes of a scalar reduced modulo the group order.
pub uninterp spec fn scalar_reduce_of(x: Seq<u8>) -> Seq<u8>;

/// PBKDF2 with HMAC-SHA512.
pub uninterp spec fn pbkdf2_sha512_of(password: Seq<u8>, salt: Seq<u8>, iters: u32, out_len: usize) -> Seq<u8>;

/// ChaCha20-Poly1305 sealing with empty associated data: (ciphertext, tag).
pub uninterp spec fn seal_of(key: Seq<u8>, nonce: Seq<u8>, msg: Seq<u8>) -> (Seq<u8>, Seq<u8>);

/// ChaCha20-Poly1305 opening with empty associated data: the plaintext, or
/// `None` when the tag does not authenticate the ciphertext.
pub uninterp spec fn open_of(key: Seq<u8>, nonce: Seq<u8>, ciphertext: Seq<u8>, tag: Seq<u8>) -> Option<Seq<u8>>;

/// Relies on cryptoxide's `Hmac<Sha512>`: a 64-byte code determined by key
/// and message.
#[verifier::external_body]
pub(crate) fn hmac_sha512(key: &[u8], msg: &[u8]) -> (r: Vec<u8>)
    ensures
        r@ == hmac_sha512_of(key@, msg@),
        r@.len() == 64,
{
    let mut mac = cryptoxide::hmac::Hmac::new(cryptoxide::sha2::Sha512::new(), key);
    mac.input(msg);
    mac.result().code().to_vec()
}

/// Relies on `cryptoxide::hashing::sha512`: a 64-byte digest.
#[verifier::external_body]
pub(crate) fn sha512(msg: &[u8]) -> (r: Vec<u8>)
    ensures
        r@ == sha512_of(msg@),
        r@.len() == 64,
{
    cryptoxide::hashing::sha512(msg).to_vec()
}

/// Relies on `cryptoxide::hashing::blake2b_256`: a 32-byte digest.
#[verifier::external_body]
pub(crate) fn blake2b_256(msg: &[u8]) -> (r: Vec<u8>)
    ensures
        r@ == blake2b_256_of(msg@),
        r@.len() == 32,
{
    cryptoxide::hashing::blake2b_256(msg).to_vec()
}

/// Relies on `cryptoxide::ed25519::extended_to_public`: the 32-byte public
/// key of an extended secret. Its base-point multiplication takes scalars
/// whose top byte is at most 127.
#[verifier::external_body]
pub(crate) fn ed25519_public(extended: &[u8]) -> (r: Vec<u8>)
    requires
        extended@.len() == 64,
        extended@[31] <= 127,
    ensures
        r@ == ed25519_public_of(extended@),
        r@.len() == 32,
{
    let ext = <&[u8; 64]>::try_from(extended).unwrap();
    cryptoxide::ed25519::extended_to_public(ext).to_vec()
}

/// Relies on `cryptoxide::ed25519::signature_extended`: a deterministic
/// 64-byte signature. It multiplies the base point by the secret scalar,
/// whose top byte must be at most 127.
#[verifier::external_body]
pub(crate) fn ed25519_sign(extended: &[u8], msg: &[u8]) -> (r: Vec<u8>)
    requires
        extended@.len() == 64,
        extended@[31] <= 127,
    ensures
        r@ == ed25519_sign_of(extended@, msg@),
        r@.len() == 64,
{
    let ext = <&[u8; 64]>::try_from(extended).unwrap();
    cryptoxide::ed25519::signature_extended(msg, ext).to_vec()
}

/// Relies on `cryptoxide::ed25519::verify`, which returns `false` rather
/// than failing on malformed keys or signatures.
#[verifier::external_body]
pub(crate) fn ed25519_verify(public: &[u8], msg: &[u8], sig: &[u8]) -> (r: bool)
    requires
        public@.len() == 32,
        sig@.len() == 64,
    ensures
        r == ed25519_verify_of(public@, msg@, sig@),
{
    let pk = <&[u8; 32]>::try_from(public).unwrap();
    let s = <&[u8; 64]>::try_from(sig).unwrap();
    cryptoxide::ed25519::verify(msg, pk, s)
}

/// Relies on cryptoxide's curve25519 `Ge::from_bytes` (which decodes to the
/// negated point `-P`), `Ge::scalarmult_base` and point subtraction:
/// `s*B - (-P)`, or `None` when `P` is not on the curve.
#[verifier::external_body]
pub(crate) fn point_add_base_mul(point: &[u8], scalar: &[u8]) -> (r: Option<Vec<u8>>)
    requires
        point@.len() == 32,
        scalar@.len() == 32,
        scalar@[31] <= 127,
    ensures
        r matches Some(v) ==> v@.len() == 32,
        bytes_opt(r) == point_add_base_mul_of(point@, scalar@),
{
    let neg_p = Ge::from_bytes(<&[u8; 32]>::try_from(point).unwrap())?;
    let s = Scalar::from_bytes(<&[u8; 32]>::try_from(scalar).unwrap());
    let q = Ge::scalarmult_base(&s);
    Some((&q - &neg_p.to_cached()).to_full().to_bytes().to_vec())
}

/// Relies on cryptoxide's `Scalar::reduce_from_wide_bytes`, documented to
/// return the little-endian input modulo the group order, and
/// `Scalar::to_bytes`; the 32-byte input is widened to 64 bytes with zeros.
#[verifier::external_body]
pub(crate) fn scalar_reduce(x: &[u8]) -> (r: Vec<u8>)
    requires
        x@.len() == 32,
    ensures
        r@ == scalar_reduce_of(x@),
        r@.len() == 32,
        le_val(r@) == le_val(x@) % group_order(),
{
    let mut wide = [0u8; 64];
    wide[..32].copy_from_slice(x);
    Scalar::reduce_from_wide_bytes(&wide).to_bytes().to_vec()
}

/// Relies on `cryptoxide::pbkdf2::pbkdf2` over `Hmac<Sha512>`, which
/// fills an output of the requested length and asserts `iters > 0`.
#[verifier::external_body]
pub(crate) fn pbkdf2_sha512(password: &[u8], salt: &[u8], iters: u32, out_len: usize) -> (r: Vec<u8>)
    requires
        iters > 0,
    ensures
        r@ == pbkdf2_sha512_of(password@, salt@, iters, out_len),
        r@.len() == out_len,
{
    let mut mac = cryptoxide::hmac::Hmac::new(cryptoxide::sha2::Sha512::new(), password);
    let mut out = vec![0u8; out_len];
    cryptoxide::pbkdf2::pbkdf2(&mut mac, salt, iters, &mut out);
    out
}

/// Relies on `cryptoxide::chacha20poly1305::ChaCha20Poly1305::encrypt`
/// (key of 32 bytes, nonce of 12): a ciphertext as long as the message and
/// a 16-byte tag.
#[verifier::external_body]
pub(crate) fn seal(key: &[u8], nonce: &[u8], msg: &[u8]) -> (r: (Vec<u8>, Vec<u8>))
    requires
        key@.len() == 32,
        nonce@.len() == 12,
    ensures
        (r.0@, r.1@) == seal_of(key@, nonce@, msg@),
        r.0@.len() == msg@.len(),
        r.1@.len() == 16,
{
    let mut ctx = cryptoxide::chacha20poly1305::ChaCha20Poly1305::new(key, nonce, &[]);
    let mut out = vec![0u8; msg.len()];
    let mut tag = vec![0u8; 16];
    ctx.encrypt(msg, &mut out, &mut tag);
    (out, tag)
}

/// Relies on `cryptoxide::chacha20poly1305::ChaCha20Poly1305::decrypt`,
/// which returns `false` when the tag does not authenticate the ciphertext.
#[verifier::external_body]
pub(crate) fn open(key: &[u8], nonce: &[u8], ciphertext: &[u8], tag: &[u8]) -> (r: Option<Vec<u8>>)
    requires
        key@.len() == 32,
        nonce@.len() == 12,
        tag@.len() == 16,
    ensures
        bytes_opt(r) == open_of(key@, nonce@, ciphertext@, tag@),
{
    let mut ctx = cryptoxide::chacha20poly1305::ChaCha20Poly1305::new(key, nonce, &[]);
    let mut out = vec![0u8; ciphertext.len()];
    if ctx.decrypt(ciphertext, &mut out, tag) { Some(out) } else { None }
}

} // verus!
