//! The encrypted derivation path an address may carry, and the key that
//! seals and opens it.
use vstd::prelude::*;
use crate::cbor::{
    concat, copy_range, enc_uint, head, lemma_prefix_concat, prefix_at, push_head, push_uint,
    read_head_of, read_uint, MAJOR_ARRAY,
};
use crate::hdwallet::XPub;
use crate::primitives::{open, open_of, pbkdf2_sha512, pbkdf2_sha512_of, seal, seal_of};

verus! {

/// The sealed derivation path carried in an address's attributes; opaque
/// without the matching key.
pub struct HDAddressPayload {
    bytes: Vec<u8>,
}

impl View for HDAddressPayload {
    type V = Seq<u8>;

    closed spec fn view(&self) -> Seq<u8> {
        self.bytes@
    }
}

impl HDAddressPayload {
    pub fn from_vec(v: Vec<u8>) -> (r: HDAddressPayload)
        ensures
            r@ == v@,
    {
        HDAddressPayload { bytes: v }
    }

    pub fn from_bytes(b: &[u8]) -> (r: HDAddressPayload)
        ensures
            r@ == b@,
    {
        HDAddressPayload { bytes: copy_range(b, 0, b.len()) }
    }

    pub fn as_slice(&self) -> (r: &[u8])
        ensures
            r@ == self@,
    {
        self.bytes.as_slice()
    }

    pub fn len(&self) -> (r: usize)
        ensures
            r == self@.len(),
    {
        self.bytes.len()
    }

    pub fn clone(&self) -> (r: HDAddressPayload)
        ensures
            r@ == self@,
    {
        HDAddressPayload { bytes: copy_range(self.bytes.as_slice(), 0, self.bytes.len()) }
    }
}

/// The elements of a path, one unsigned integer each.
pub open spec fn enc_items(s: Seq<u32>) -> Seq<u8>
    decreases s.len(),
{
    if s.len() == 0 {
        seq![]
    } else {
        enc_items(s.drop_last()) + enc_uint(s.last() as u64)
    }
}

/// A derivation path: an array of its indices.
pub open spec fn enc_path(s: Seq<u32>) -> Seq<u8> {
    head(MAJOR_ARRAY, s.len() as u64) + enc_items(s)
}

proof fn lemma_items_len(s: Seq<u32>)
    ensures
        enc_items(s).len() >= s.len(),
    decreases s.len(),
{
    if s.len() > 0 {
        lemma_items_len(s.drop_last());
    }
}

proof fn lemma_items_step(s: Seq<u32>, i: int)
    requires
        0 <= i < s.len(),
    ensures
        enc_items(s.subrange(0, i + 1)) == enc_items(s.subrange(0, i)) + enc_uint(s[i] as u64),
{
    assert(s.subrange(0, i + 1).drop_last() =~= s.subrange(0, i));
}

/// The encoding of the first `j` indices of a path stands at the start of
/// the encoding of the whole path.
proof fn lemma_items_prefix(b: Seq<u8>, pos: int, s: Seq<u32>, j: int)
    requires
        0 <= j <= s.len(),
        prefix_at(b, pos, enc_items(s)),
    ensures
        prefix_at(b, pos, enc_items(s.subrange(0, j))),
    decreases s.len() - j,
{
    if j == s.len() {
        assert(s.subrange(0, j) =~= s);
    } else {
        lemma_items_prefix(b, pos, s, j + 1);
        lemma_items_step(s, j);
        lemma_prefix_concat(b, pos, enc_items(s.subrange(0, j)), enc_uint(s[j] as u64));
    }
}

/// Decodes a derivation path that fills `b` exactly.
pub fn decode_path(b: &[u8]) -> (r: Option<Vec<u32>>)
    ensures
        r matches Some(v) ==> b@ == enc_path(v@),
        forall|s: Seq<u32>| b@ == #[trigger] enc_path(s) ==> (r matches Some(v) && v@ == s),
{
    let blen = b.len();
    proof {
        assert forall|s: Seq<u32>| b@ == #[trigger] enc_path(s) implies prefix_at(
            b@,
            0,
            head(MAJOR_ARRAY, s.len() as u64),
        ) && prefix_at(b@, head(MAJOR_ARRAY, s.len() as u64).len() as int, enc_items(s))
            && s.len() as u64 == s.len() by {
            assert(b@.subrange(0, b@.len() as int) =~= b@);
            lemma_prefix_concat(b@, 0, head(MAJOR_ARRAY, s.len() as u64), enc_items(s));
            lemma_items_len(s);
            assert(s.len() <= blen);
        }
    }
    let (n, p0) = match read_head_of(b, 0, MAJOR_ARRAY) {
        Some(x) => x,
        None => return None,
    };
    let mut v: Vec<u32> = Vec::new();
    proof {
        assert(enc_items(v@) =~= seq![]);
        assert(b@.subrange(p0 as int, p0 as int) =~= seq![]);
        assert forall|s: Seq<u32>| b@ == #[trigger] enc_path(s) implies v@ == s.subrange(0, 0) by {
            assert(v@ =~= s.subrange(0, 0));
        }
    }
    let mut pos: usize = p0;
    let mut i: u64 = 0;
    while i < n
        invariant
            i <= n,
            v@.len() == i,
            p0 <= pos <= b@.len(),
            forall|s: Seq<u32>| b@ == #[trigger] enc_path(s) ==> prefix_at(b@, p0 as int, enc_items(s)),
            prefix_at(b@, p0 as int, enc_items(v@)),
            pos == p0 + enc_items(v@).len(),
            p0 == head(MAJOR_ARRAY, n).len(),
            forall|s: Seq<u32>| b@ == #[trigger] enc_path(s) ==> s.len() == n && v@ == s.subrange(0, i as int),
        decreases n - i,
    {
        proof {
            assert forall|s: Seq<u32>| b@ == #[trigger] enc_path(s) implies prefix_at(
                b@,
                pos as int,
                enc_uint(s[i as int] as u64),
            ) by {
                lemma_items_prefix(b@, p0 as int, s, i + 1);
                lemma_items_step(s, i as int);
                lemma_prefix_concat(
                    b@,
                    p0 as int,
                    enc_items(s.subrange(0, i as int)),
                    enc_uint(s[i as int] as u64),
                );
            }
        }
        let (x, p) = match read_uint(b, pos) {
            Some(x) => x,
            None => return None,
        };
        if x > 0xFFFF_FFFF {
            return None;
        }
        let ghost old_v = v@;
        v.push(x as u32);
        proof {
            assert(v@.drop_last() =~= old_v);
            assert((x as u32) as u64 == x);
            lemma_prefix_concat(b@, p0 as int, enc_items(old_v), enc_uint(x));
            assert forall|s: Seq<u32>| b@ == #[trigger] enc_path(s) implies v@ == s.subrange(
                0,
                i + 1,
            ) by {
                assert(v@ =~= s.subrange(0, i + 1));
            }
        }
        pos = p;
        i = i + 1;
    }
    proof {
        assert forall|s: Seq<u32>| b@ == #[trigger] enc_path(s) implies pos == b@.len() by {
            assert(s.subrange(0, s.len() as int) =~= s);
        }
    }
    if pos != b.len() {
        return None;
    }
    proof {
        assert(b@ =~= head(MAJOR_ARRAY, n) + enc_items(v@)) by {
            lemma_prefix_concat(b@, 0, head(MAJOR_ARRAY, n), enc_items(v@));
            assert(b@.subrange(0, b@.len() as int) =~= b@);
        }
        assert forall|s: Seq<u32>| b@ == #[trigger] enc_path(s) implies v@ == s by {
            assert(s.subrange(0, s.len() as int) =~= s);
        }
    }
    Some(v)
}

/// Encodes a derivation path.
pub fn encode_path(path: &[u32]) -> (r: Vec<u8>)
    ensures
        r@ == enc_path(path@),
{
    let mut out: Vec<u8> = Vec::new();
    push_head(&mut out, MAJOR_ARRAY, path.len() as u64);
    let ghost start = out@;
    let mut i: usize = 0;
    while i < path.len()
        invariant
            i <= path@.len(),
            out@ == start + enc_items(path@.subrange(0, i as int)),
        decreases path@.len() - i,
    {
        proof {
            lemma_items_step(path@, i as int);
        }
        push_uint(&mut out, path[i] as u64);
        i = i + 1;
        assert(out@ =~= start + enc_items(path@.subrange(0, i as int)));
    }
    assert(path@.subrange(0, path@.len() as int) =~= path@);
    out
}

pub const HDKEY_SIZE: usize = 32;

/// Iterations of the key stretching that derives an `HDKey`.
pub const HDKEY_ITERATIONS: u32 = 500;

/// The salt of the key stretching: "address-hashing".
pub open spec fn hdkey_salt() -> Seq<u8> {
    seq![97u8, 100, 100, 114, 101, 115, 115, 45, 104, 97, 115, 104, 105, 110, 103]
}

/// The fixed nonce of path sealing: "serokellfore".
pub open spec fn path_nonce() -> Seq<u8> {
    seq![115u8, 101, 114, 111, 107, 101, 108, 108, 102, 111, 114, 101]
}

fn mk_hdkey_salt() -> (r: Vec<u8>)
    ensures
        r@ == hdkey_salt(),
{
    let r: Vec<u8> = vec![97u8, 100, 100, 114, 101, 115, 115, 45, 104, 97, 115, 104, 105, 110, 103];
    assert(r@ =~= hdkey_salt());
    r
}

fn mk_path_nonce() -> (r: Vec<u8>)
    ensures
        r@ == path_nonce(),
{
    let r: Vec<u8> = vec![115u8, 101, 114, 111, 107, 101, 108, 108, 102, 111, 114, 101];
    assert(r@ =~= path_nonce());
    r
}

/// The key of an extended public key: PBKDF2-HMAC-SHA512 of its bytes.
pub open spec fn hdkey_spec(xpub: Seq<u8>) -> Seq<u8> {
    pbkdf2_sha512_of(xpub, hdkey_salt(), HDKEY_ITERATIONS, HDKEY_SIZE)
}

/// The sealed form of a path: ciphertext then tag.
pub open spec fn encrypt_path_spec(key: Seq<u8>, path: Seq<u32>) -> Seq<u8> {
    let sealed = seal_of(key, path_nonce(), enc_path(path));
    sealed.0 + sealed.1
}

/// A derivation path; order matters and the empty path names the root.
pub struct Path {
    indices: Vec<u32>,
}

impl View for Path {
    type V = Seq<u32>;

    closed spec fn view(&self) -> Seq<u32> {
        self.indices@
    }
}

impl Path {
    pub fn new(indices: Vec<u32>) -> (r: Path)
        ensures
            r@ == indices@,
    {
        Path { indices }
    }

    pub fn as_slice(&self) -> (r: &[u32])
        ensures
            r@ == self@,
    {
        self.indices.as_slice()
    }
}

/// The symmetric key that seals and opens derivation paths.
pub struct HDKey {
    bytes: Vec<u8>,
}

impl View for HDKey {
    type V = Seq<u8>;

    closed spec fn view(&self) -> Seq<u8> {
        self.bytes@
    }
}

impl HDKey {
    #[verifier::type_invariant]
    spec fn inv(&self) -> bool {
        self.bytes@.len() == HDKEY_SIZE
    }

    /// The key of `root_pub`; the same public key always gives the same key.
    pub fn new(root_pub: &XPub) -> (r: HDKey)
        ensures
            r@ == hdkey_spec(root_pub@),
    {
        let salt = mk_hdkey_salt();
        let bytes = pbkdf2_sha512(root_pub.as_slice(), salt.as_slice(), HDKEY_ITERATIONS, HDKEY_SIZE);
        HDKey { bytes }
    }

    /// A key holding exactly `b`; `None` unless `b` has 32 bytes.
    pub fn from_slice(b: &[u8]) -> (r: Option<HDKey>)
        ensures
            b@.len() == HDKEY_SIZE ==> (r matches Some(k) && k@ == b@),
            b@.len() != HDKEY_SIZE ==> r is None,
    {
        if b.len() != HDKEY_SIZE {
            return None;
        }
        Some(HDKey { bytes: copy_range(b, 0, b.len()) })
    }

    pub fn as_slice(&self) -> (r: &[u8])
        ensures
            r@ == self@,
            r@.len() == HDKEY_SIZE,
    {
        proof {
            use_type_invariant(self);
        }
        self.bytes.as_slice()
    }

    /// Seals `path` under this key.
    pub fn encrypt_path(&self, path: &Path) -> (r: HDAddressPayload)
        ensures
            r@ == encrypt_path_spec(self@, path@),
    {
        let nonce = mk_path_nonce();
        let plain = encode_path(path.as_slice());
        let (c, t) = seal(self.as_slice(), nonce.as_slice(), plain.as_slice());
        HDAddressPayload::from_vec(concat(c.as_slice(), t.as_slice()))
    }

    /// Opens `payload` and decodes the path inside; `None` when it is
    /// shorter than a tag, fails authentication, or does not hold exactly
    /// one encoded path.
    pub fn decrypt_path(&self, payload: &HDAddressPayload) -> (r: Option<Path>)
        ensures
            payload@.len() < 16 ==> r is None,
            payload@.len() >= 16 ==> match open_of(
                self@,
                path_nonce(),
                payload@.subrange(0, payload@.len() - 16),
                payload@.subrange(payload@.len() - 16, payload@.len() as int),
            ) {
                None => r is None,
                Some(plain) => (r matches Some(p) ==> plain == enc_path(p@)) && (forall|s: Seq<u32>|
                    plain == #[trigger] enc_path(s) ==> (r matches Some(p) && p@ == s)),
            },
    {
        let b = payload.as_slice();
        if b.len() < 16 {
            return None;
        }
        let split = b.len() - 16;
        let c = copy_range(b, 0, split);
        let t = copy_range(b, split, b.len());
        let nonce = mk_path_nonce();
        match open(self.as_slice(), nonce.as_slice(), c.as_slice(), t.as_slice()) {
            None => None,
            Some(plain) => match decode_path(plain.as_slice()) {
                Some(v) => Some(Path::new(v)),
                None => None,
            },
        }
    }
}

} // verus!
