//! Extended keys and their derivation tree, with signing and verification.
use vstd::prelude::*;
use crate::cbor::{concat, copy_range};
use crate::error::Error;
use crate::scalar::{add_scaled, lemma_reduced_top_byte, lemma_tweak_top_byte, scalar_add};
use crate::primitives::{
    ed25519_public, ed25519_public_of, ed25519_sign, ed25519_sign_of, ed25519_verify,
    ed25519_verify_of, hmac_sha512, hmac_sha512_of, point_add_base_mul, point_add_base_mul_of,
    scalar_reduce, scalar_reduce_of, sha512, sha512_of,
};
use core::marker::PhantomData;

verus! {

pub const SEED_SIZE: usize = 32;
pub const XPRV_SIZE: usize = 96;
pub const XPUB_SIZE: usize = 64;
pub const SIGNATURE_SIZE: usize = 64;

/// The 32 bytes a root key is generated from.
pub struct Seed {
    bytes: Vec<u8>,
}

impl View for Seed {
    type V = Seq<u8>;

    closed spec fn view(&self) -> Seq<u8> {
        self.bytes@
    }
}

impl Seed {
    #[verifier::type_invariant]
    spec fn inv(&self) -> bool {
        self.bytes@.len() == SEED_SIZE
    }

    /// A seed holding exactly `b`; `MalformedKey` unless `b` has 32 bytes.
    pub fn from_slice(b: &[u8]) -> (r: Result<Seed, Error>)
        ensures
            b@.len() == SEED_SIZE ==> (r matches Ok(s) && s@ == b@),
            b@.len() != SEED_SIZE ==> r == Err::<Seed, Error>(Error::MalformedKey),
    {
        if b.len() != SEED_SIZE {
            return Err(Error::MalformedKey);
        }
        Ok(Seed { bytes: copy_range(b, 0, b.len()) })
    }

    pub fn as_slice(&self) -> (r: &[u8])
        ensures
            r@ == self@,
            r@.len() == SEED_SIZE,
    {
        proof {
            use_type_invariant(self);
        }
        self.bytes.as_slice()
    }
}

/// An extended public key: a 32-byte curve point and a 32-byte chain code.
pub struct XPub {
    bytes: Vec<u8>,
}

impl View for XPub {
    type V = Seq<u8>;

    closed spec fn view(&self) -> Seq<u8> {
        self.bytes@
    }
}

impl XPub {
    #[verifier::type_invariant]
    spec fn inv(&self) -> bool {
        self.bytes@.len() == XPUB_SIZE
    }

    /// An extended public key holding exactly `b`; `MalformedKey` unless `b`
    /// has 64 bytes.
    pub fn from_slice(b: &[u8]) -> (r: Result<XPub, Error>)
        ensures
            b@.len() == XPUB_SIZE ==> (r matches Ok(k) && k@ == b@),
            b@.len() != XPUB_SIZE ==> r == Err::<XPub, Error>(Error::MalformedKey),
    {
        if b.len() != XPUB_SIZE {
            return Err(Error::MalformedKey);
        }
        Ok(XPub { bytes: copy_range(b, 0, b.len()) })
    }

    pub fn as_slice(&self) -> (r: &[u8])
        ensures
            r@ == self@,
            r@.len() == XPUB_SIZE,
    {
        proof {
            use_type_invariant(self);
        }
        self.bytes.as_slice()
    }

    pub fn clone(&self) -> (r: XPub)
        ensures
            r@ == self@,
    {
        proof {
            use_type_invariant(self);
        }
        XPub { bytes: self.bytes.clone() }
    }
}

/// A 32-bit index is hardened when its top bit is set.
pub open spec fn is_hardened(index: u32) -> bool {
    index >= 0x8000_0000
}

/// The big-endian bytes of `i`.
pub open spec fn be32(i: u32) -> Seq<u8> {
    seq![(i >> 24u32) as u8, (i >> 16u32) as u8, (i >> 8u32) as u8, i as u8]
}

/// Big-endian bytes of `i`.
fn push_be32(out: &mut Vec<u8>, i: u32)
    ensures
        final(out)@ == old(out)@ + be32(i),
{
    out.push((i >> 24) as u8);
    out.push((i >> 16) as u8);
    out.push((i >> 8) as u8);
    out.push(i as u8);
    assert(final(out)@ =~= old(out)@ + be32(i));
}

/// The message of a child derivation: a one-byte tag, the parent's key
/// material, and the big-endian index.
pub open spec fn derivation_msg(tag: u8, data: Seq<u8>, index: u32) -> Seq<u8> {
    seq![tag] + data + be32(index)
}

fn mk_derivation_msg(tag: u8, data: &[u8], index: u32) -> (r: Vec<u8>)
    ensures
        r@ == derivation_msg(tag, data@, index),
{
    let mut msg: Vec<u8> = Vec::new();
    msg.push(tag);
    let mut i: usize = 0;
    while i < data.len()
        invariant
            i <= data@.len(),
            msg@ == seq![tag] + data@.subrange(0, i as int),
        decreases data@.len() - i,
    {
        msg.push(data[i]);
        i = i + 1;
        assert(msg@ =~= seq![tag] + data@.subrange(0, i as int));
    }
    assert(data@.subrange(0, data@.len() as int) =~= data@);
    push_be32(&mut msg, index);
    msg
}

/// The 64-byte extended secret (scalar half then nonce half) of an extended
/// private key.
pub open spec fn xprv_secret(k: Seq<u8>) -> Seq<u8> {
    k.subrange(0, 64)
}

/// The chain code of an extended private key.
pub open spec fn xprv_chain_code(k: Seq<u8>) -> Seq<u8> {
    k.subrange(64, 96)
}

/// The extended public key of an extended private key.
pub open spec fn to_public_spec(k: Seq<u8>) -> Seq<u8> {
    ed25519_public_of(xprv_secret(k)) + xprv_chain_code(k)
}

/// The key material a derivation at `index` feeds to the HMAC: the
/// extended secret when hardened, the public key otherwise.
pub open spec fn private_derivation_data(k: Seq<u8>, index: u32) -> Seq<u8> {
    if is_hardened(index) {
        xprv_secret(k)
    } else {
        ed25519_public_of(xprv_secret(k))
    }
}

/// The HMAC whose output tweaks the key of the child at `index`.
pub open spec fn private_z(k: Seq<u8>, index: u32) -> Seq<u8> {
    hmac_sha512_of(
        xprv_chain_code(k),
        derivation_msg(if is_hardened(index) { 0 } else { 2 }, private_derivation_data(k, index), index),
    )
}

/// The HMAC whose right half is the chain code of the child at `index`.
pub open spec fn private_i(k: Seq<u8>, index: u32) -> Seq<u8> {
    hmac_sha512_of(
        xprv_chain_code(k),
        derivation_msg(if is_hardened(index) { 1 } else { 3 }, private_derivation_data(k, index), index),
    )
}

/// The child of the extended private key `k` at `index`: the left scalar
/// gains eight times the first 28 bytes of Z and is reduced modulo the
/// group order, the right half gains the right half of Z, and the chain
/// code is the right half of I.
pub open spec fn derive_private_spec(k: Seq<u8>, index: u32) -> Seq<u8> {
    let z = private_z(k, index);
    scalar_reduce_of(scalar_add(k.subrange(0, 32), z, 28, 8)) + scalar_add(k.subrange(32, 64), z.subrange(32, 64), 32, 1)
        + private_i(k, index).subrange(32, 64)
}

/// The HMAC whose output tweaks the public key of the child at `index`.
pub open spec fn public_z(p: Seq<u8>, index: u32) -> Seq<u8> {
    hmac_sha512_of(p.subrange(32, 64), derivation_msg(2, p.subrange(0, 32), index))
}

/// The HMAC whose right half is the chain code of the child at `index`.
pub open spec fn public_i(p: Seq<u8>, index: u32) -> Seq<u8> {
    hmac_sha512_of(p.subrange(32, 64), derivation_msg(3, p.subrange(0, 32), index))
}

/// The child of the extended public key `p` at a non-hardened `index`:
/// the point gains eight times the first 28 bytes of Z times the base
/// point; `None` when the parent's point is not on the curve.
pub open spec fn derive_public_spec(p: Seq<u8>, index: u32) -> Option<Seq<u8>> {
    let tweak = scalar_add(Seq::new(32, |i: int| 0u8), public_z(p, index), 28, 8);
    match point_add_base_mul_of(p.subrange(0, 32), tweak) {
        Some(q) => Some(q + public_i(p, index).subrange(32, 64)),
        None => None,
    }
}

/// Clamps a 64-byte hash into an Ed25519 extended secret: the scalar is a
/// multiple of eight, below 2^255, with bit 254 set and bit 253 clear.
pub open spec fn clamp_spec(e: Seq<u8>) -> Seq<u8> {
    e.update(0, e[0] & 248u8).update(31, (e[31] & 31u8) | 64u8)
}

/// The message whose HMAC under the seed gives the root key.
pub open spec fn root_msg() -> Seq<u8> {
    // "Root Seed Chain"
    seq![82u8, 111, 111, 116, 32, 83, 101, 101, 100, 32, 67, 104, 97, 105, 110]
}

/// The root extended private key of a seed: the left half of
/// `HMAC-SHA512(seed, "Root Seed Chain")`, hashed with SHA-512 and
/// clamped, then the right half as chain code.
pub open spec fn root_spec(seed: Seq<u8>) -> Seq<u8> {
    let block = hmac_sha512_of(seed, root_msg());
    clamp_spec(sha512_of(block.subrange(0, 32))) + block.subrange(32, 64)
}

fn mk_root_msg() -> (r: Vec<u8>)
    ensures
        r@ == root_msg(),
{
    let r: Vec<u8> = vec![82u8, 111, 111, 116, 32, 83, 101, 101, 100, 32, 67, 104, 97, 105, 110];
    assert(r@ =~= root_msg());
    r
}

/// An extended private key: a 64-byte Ed25519 extended secret and a 32-byte
/// chain code. The secret scalar stays below 2^255.
pub struct XPrv {
    bytes: Vec<u8>,
}

impl View for XPrv {
    type V = Seq<u8>;

    closed spec fn view(&self) -> Seq<u8> {
        self.bytes@
    }
}

impl XPrv {
    #[verifier::type_invariant]
    spec fn inv(&self) -> bool {
        &&& self.bytes@.len() == XPRV_SIZE
        &&& self.bytes@[31] <= 127
    }

    /// An extended private key holding exactly `b`; `MalformedKey` unless `b`
    /// has 96 bytes and a secret scalar below 2^255.
    pub fn from_slice(b: &[u8]) -> (r: Result<XPrv, Error>)
        ensures
            b@.len() == XPRV_SIZE && b@[31] <= 127 ==> (r matches Ok(k) && k@ == b@),
            !(b@.len() == XPRV_SIZE && b@[31] <= 127) ==> r == Err::<XPrv, Error>(
                Error::MalformedKey,
            ),
    {
        if b.len() != XPRV_SIZE || b[31] > 127 {
            return Err(Error::MalformedKey);
        }
        Ok(XPrv { bytes: copy_range(b, 0, b.len()) })
    }

    pub fn as_slice(&self) -> (r: &[u8])
        ensures
            r@ == self@,
            r@.len() == XPRV_SIZE,
    {
        proof {
            use_type_invariant(self);
        }
        self.bytes.as_slice()
    }

    /// The root key of `seed`; the same seed always gives the same key.
    pub fn generate_from_seed(seed: &Seed) -> (r: XPrv)
        ensures
            r@ == root_spec(seed@),
    {
        let msg = mk_root_msg();
        let block = hmac_sha512(seed.as_slice(), msg.as_slice());
        let left = copy_range(block.as_slice(), 0, 32);
        let mut ext = sha512(left.as_slice());
        let b0 = ext[0] & 248;
        ext.set(0, b0);
        let e31 = ext[31];
        let b31 = (e31 & 31) | 64;
        assert(b31 <= 127) by (bit_vector)
            requires
                b31 == (e31 & 31u8) | 64u8,
        ;
        ext.set(31, b31);
        let cc = copy_range(block.as_slice(), 32, 64);
        let bytes = concat(ext.as_slice(), cc.as_slice());
        proof {
            assert(ext@ =~= clamp_spec(sha512_of(block@.subrange(0, 32))));
        }
        XPrv { bytes }
    }

    /// The extended public key of this key.
    pub fn public(&self) -> (r: XPub)
        ensures
            r@ == to_public_spec(self@),
    {
        proof {
            use_type_invariant(self);
        }
        let secret = copy_range(self.bytes.as_slice(), 0, 64);
        let pk = ed25519_public(secret.as_slice());
        let cc = copy_range(self.bytes.as_slice(), 64, 96);
        XPub { bytes: concat(pk.as_slice(), cc.as_slice()) }
    }

    /// The child key at `index`, hardened or not; derivation always succeeds.
    pub fn derive(&self, index: u32) -> (r: XPrv)
        ensures
            r@ == derive_private_spec(self@, index),
    {
        proof {
            use_type_invariant(self);
        }
        let k = self.bytes.as_slice();
        let secret = copy_range(k, 0, 64);
        let cc = copy_range(k, 64, 96);
        let hardened = index >= 0x8000_0000;
        let data = if hardened { secret.clone() } else { ed25519_public(secret.as_slice()) };
        proof {
            assert(data@ == private_derivation_data(self@, index));
        }
        let zmsg = mk_derivation_msg(if hardened { 0 } else { 2 }, data.as_slice(), index);
        let imsg = mk_derivation_msg(if hardened { 1 } else { 3 }, data.as_slice(), index);
        let z = hmac_sha512(cc.as_slice(), zmsg.as_slice());
        let i = hmac_sha512(cc.as_slice(), imsg.as_slice());
        let kl = copy_range(k, 0, 32);
        let kr = copy_range(k, 32, 64);
        let zr = copy_range(z.as_slice(), 32, 64);
        let sum = add_scaled(kl.as_slice(), z.as_slice(), 28, 8);
        let left = scalar_reduce(sum.as_slice());
        proof {
            lemma_reduced_top_byte(left@);
        }
        let right = add_scaled(kr.as_slice(), zr.as_slice(), 32, 1);
        let chain = copy_range(i.as_slice(), 32, 64);
        let lr = concat(left.as_slice(), right.as_slice());
        XPrv { bytes: concat(lr.as_slice(), chain.as_slice()) }
    }

    /// The signature of `msg` under this key; signing is deterministic.
    pub fn sign<T>(&self, msg: &[u8]) -> (r: Signature<T>)
        ensures
            r@ == ed25519_sign_of(xprv_secret(self@), msg@),
    {
        proof {
            use_type_invariant(self);
        }
        let secret = copy_range(self.bytes.as_slice(), 0, 64);
        Signature { bytes: ed25519_sign(secret.as_slice(), msg), marker: PhantomData }
    }
}

impl XPub {
    /// The child key at `index`: `InvalidDerivation` for a hardened index,
    /// `MalformedKey` when this key's point is not on the curve.
    pub fn derive(&self, index: u32) -> (r: Result<XPub, Error>)
        ensures
            is_hardened(index) ==> r == Err::<XPub, Error>(Error::InvalidDerivation),
            !is_hardened(index) ==> match derive_public_spec(self@, index) {
                Some(c) => (r matches Ok(k) && k@ == c),
                None => r == Err::<XPub, Error>(Error::MalformedKey),
            },
    {
        proof {
            use_type_invariant(self);
        }
        if index >= 0x8000_0000 {
            return Err(Error::InvalidDerivation);
        }
        let p = self.bytes.as_slice();
        let pk = copy_range(p, 0, 32);
        let cc = copy_range(p, 32, 64);
        let zmsg = mk_derivation_msg(2, pk.as_slice(), index);
        let imsg = mk_derivation_msg(3, pk.as_slice(), index);
        let z = hmac_sha512(cc.as_slice(), zmsg.as_slice());
        let i = hmac_sha512(cc.as_slice(), imsg.as_slice());
        let zero: Vec<u8> = vec![0u8; 32];
        proof {
            assert(zero@ =~= Seq::new(32, |i: int| 0u8));
        }
        let tweak = add_scaled(zero.as_slice(), z.as_slice(), 28, 8);
        proof {
            lemma_tweak_top_byte(z@);
        }
        match point_add_base_mul(pk.as_slice(), tweak.as_slice()) {
            Some(q) => {
                let chain = copy_range(i.as_slice(), 32, 64);
                Ok(XPub { bytes: concat(q.as_slice(), chain.as_slice()) })
            },
            None => Err(Error::MalformedKey),
        }
    }

    /// Whether `sig` is a valid signature of `msg` under this key's point.
    pub fn verify<T>(&self, msg: &[u8], sig: &Signature<T>) -> (r: bool)
        ensures
            r == ed25519_verify_of(self@.subrange(0, 32), msg@, sig@),
    {
        proof {
            use_type_invariant(self);
        }
        let pk = copy_range(self.bytes.as_slice(), 0, 32);
        ed25519_verify(pk.as_slice(), msg, sig.as_slice())
    }
}

/// A 64-byte signature, tagged with the kind of message it signs.
pub struct Signature<T> {
    bytes: Vec<u8>,
    marker: PhantomData<T>,
}

impl<T> View for Signature<T> {
    type V = Seq<u8>;

    closed spec fn view(&self) -> Seq<u8> {
        self.bytes@
    }
}

impl<T> Signature<T> {
    #[verifier::type_invariant]
    spec fn inv(&self) -> bool {
        self.bytes@.len() == SIGNATURE_SIZE
    }

    /// A signature holding exactly `b`; `MalformedKey` unless `b` has 64
    /// bytes.
    pub fn from_slice(b: &[u8]) -> (r: Result<Signature<T>, Error>)
        ensures
            b@.len() == SIGNATURE_SIZE ==> (r matches Ok(s) && s@ == b@),
            b@.len() != SIGNATURE_SIZE ==> (r matches Err(e) && e == Error::MalformedKey),
    {
        if b.len() != SIGNATURE_SIZE {
            return Err(Error::MalformedKey);
        }
        Ok(Signature { bytes: copy_range(b, 0, b.len()), marker: PhantomData })
    }

    pub fn as_slice(&self) -> (r: &[u8])
        ensures
            r@ == self@,
            r@.len() == SIGNATURE_SIZE,
    {
        proof {
            use_type_invariant(self);
        }
        self.bytes.as_slice()
    }
}

/// Root generation is deterministic: two root keys generated from one seed
/// are the same key.
pub proof fn law_root_deterministic(seed: Seq<u8>, k1: Seq<u8>, k2: Seq<u8>)
    requires
        k1 == root_spec(seed),
        k2 == root_spec(seed),
    ensures
        k1 == k2,
{
}

/// For a non-hardened index, deriving from the extended public key feeds
/// the two HMACs exactly what deriving from the private key feeds them: the
/// children get the same chain code and the same tweak. (That the tweaked
/// points then agree is the group law of the curve, not proved here.)
pub proof fn law_derivation_hmacs_agree(k: Seq<u8>, index: u32, p: Seq<u8>)
    requires
        k.len() == XPRV_SIZE,
        p.len() == XPUB_SIZE,
        p == to_public_spec(k),
        !is_hardened(index),
    ensures
        public_z(p, index) == private_z(k, index),
        public_i(p, index) == private_i(k, index),
{
    let e = ed25519_public_of(xprv_secret(k));
    assert(e.len() == 32);
    assert(p.subrange(0, 32) =~= e);
    assert(p.subrange(32, 64) =~= xprv_chain_code(k));
}

} // verus!
