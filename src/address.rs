//! Extended addresses: a kind, the data that proves the right to spend, and
//! attributes, framed with a CRC-32 checksum.
use vstd::prelude::*;
use crate::cbor::{
    enc_bytes, enc_uint, head, lemma_bytes_unique, lemma_head_unique, lemma_prefix_concat, prefix_at, push_bytes, push_head, push_uint,
    read_bytes, read_head_of, read_uint, MAJOR_ARRAY, MAJOR_TAG,
};
use crate::crc32::{crc32, crc32_spec};
use crate::error::Error;
use crate::hdpayload::HDAddressPayload;
use crate::hdwallet::{XPub, XPUB_SIZE};

verus! {

/// The tag under which the address body is embedded as a byte string.
pub const EMBEDDED_TAG: u64 = 24;

/// The kind of proof that spending from an address requires.
#[derive(Debug, Clone, Copy, PartialEq, Eq, Structural)]
pub enum AddrType {
    ATPubKey,
}

/// The era an address was issued in.
#[derive(Debug, Clone, Copy, PartialEq, Eq, Structural)]
pub enum Era {
    Bootstrap,
}

/// The data proving the right to spend, one variant per address kind.
pub enum SpendingData {
    PubKeyASD(XPub),
}

/// What spending data holds.
pub enum SpendingModel {
    PubKey(Seq<u8>),
}

/// Optional sealed derivation path, and the era.
pub struct Attributes {
    pub derivation_path: Option<HDAddressPayload>,
    pub era: Era,
}

pub struct ExtendedAddr {
    pub addr_type: AddrType,
    pub spending_data: SpendingData,
    pub attributes: Attributes,
}

/// What an address holds.
pub struct AddrModel {
    pub addr_type: AddrType,
    pub spending: SpendingModel,
    pub payload: Option<Seq<u8>>,
    pub era: Era,
}

impl View for SpendingData {
    type V = SpendingModel;

    open spec fn view(&self) -> SpendingModel {
        match self {
            SpendingData::PubKeyASD(k) => SpendingModel::PubKey(k@),
        }
    }
}

pub open spec fn payload_model(p: Option<HDAddressPayload>) -> Option<Seq<u8>> {
    match p {
        Some(h) => Some(h@),
        None => None,
    }
}

impl View for ExtendedAddr {
    type V = AddrModel;

    open spec fn view(&self) -> AddrModel {
        AddrModel {
            addr_type: self.addr_type,
            spending: self.spending_data@,
            payload: payload_model(self.attributes.derivation_path),
            era: self.attributes.era,
        }
    }
}

/// Spending data that a value of the library can hold.
pub open spec fn valid_spending(s: SpendingModel) -> bool {
    match s {
        SpendingModel::PubKey(k) => k.len() == XPUB_SIZE,
    }
}

/// An address that a value of the library can hold.
pub open spec fn valid_addr(a: AddrModel) -> bool {
    valid_spending(a.spending)
}

pub open spec fn enc_addr_type(t: AddrType) -> Seq<u8> {
    match t {
        AddrType::ATPubKey => enc_uint(0),
    }
}

pub open spec fn enc_era(e: Era) -> Seq<u8> {
    match e {
        Era::Bootstrap => enc_uint(0),
    }
}

/// Spending data: a two-element array of the variant's tag and its data.
pub open spec fn enc_spending(s: SpendingModel) -> Seq<u8> {
    match s {
        SpendingModel::PubKey(k) => head(MAJOR_ARRAY, 2) + (enc_uint(0) + enc_bytes(k)),
    }
}

/// An optional payload: an array of none or one byte string.
pub open spec fn enc_payload(p: Option<Seq<u8>>) -> Seq<u8> {
    match p {
        None => head(MAJOR_ARRAY, 0),
        Some(b) => head(MAJOR_ARRAY, 1) + enc_bytes(b),
    }
}

/// Attributes: a two-element array of the optional payload and the era.
pub open spec fn enc_attributes(p: Option<Seq<u8>>, e: Era) -> Seq<u8> {
    head(MAJOR_ARRAY, 2) + (enc_payload(p) + enc_era(e))
}

/// The body of an address: a three-element array of kind, spending data
/// and attributes.
pub open spec fn enc_body(a: AddrModel) -> Seq<u8> {
    head(MAJOR_ARRAY, 3) + (enc_addr_type(a.addr_type) + (enc_spending(a.spending)
        + enc_attributes(a.payload, a.era)))
}

/// The frame of an address body: a two-element array of the body, embedded
/// as a tagged byte string, and a checksum.
pub open spec fn enc_frame(body: Seq<u8>, crc: u64) -> Seq<u8> {
    head(MAJOR_ARRAY, 2) + (head(MAJOR_TAG, EMBEDDED_TAG) + (enc_bytes(body) + enc_uint(crc)))
}

/// The encoding of an address: its body framed with the body's CRC-32.
pub open spec fn enc_addr(a: AddrModel) -> Seq<u8> {
    enc_frame(enc_body(a), crc32_spec(enc_body(a)) as u64)
}

fn read_addr_type(b: &[u8], pos: usize) -> (r: Option<(AddrType, usize)>)
    ensures
        r matches Some((t, p)) ==> p == pos + enc_addr_type(t).len() && prefix_at(
            b@,
            pos as int,
            enc_addr_type(t),
        ),
        forall|t: AddrType| #[trigger]
            prefix_at(b@, pos as int, enc_addr_type(t)) ==> r == Some(
                (t, (pos + enc_addr_type(t).len()) as usize),
            ),
{
    match read_uint(b, pos) {
        Some((n, p)) => {
            if n == 0 {
                Some((AddrType::ATPubKey, p))
            } else {
                None
            }
        },
        None => None,
    }
}

fn read_era(b: &[u8], pos: usize) -> (r: Option<(Era, usize)>)
    ensures
        r matches Some((t, p)) ==> p == pos + enc_era(t).len() && prefix_at(
            b@,
            pos as int,
            enc_era(t),
        ),
        forall|t: Era| #[trigger]
            prefix_at(b@, pos as int, enc_era(t)) ==> r == Some(
                (t, (pos + enc_era(t).len()) as usize),
            ),
{
    match read_uint(b, pos) {
        Some((n, p)) => {
            if n == 0 {
                Some((Era::Bootstrap, p))
            } else {
                None
            }
        },
        None => None,
    }
}

fn read_spending(b: &[u8], pos: usize) -> (r: Option<(SpendingData, usize)>)
    ensures
        r matches Some((s, p)) ==> valid_spending(s@) && p == pos + enc_spending(s@).len()
            && prefix_at(b@, pos as int, enc_spending(s@)),
        forall|s: SpendingModel|
            valid_spending(s) && #[trigger] prefix_at(b@, pos as int, enc_spending(s)) ==> (
            r matches Some((x, p)) && x@ == s && p == pos + enc_spending(s).len()),
{
    proof {
        assert forall|s: SpendingModel|
            valid_spending(s) && #[trigger] prefix_at(b@, pos as int, enc_spending(s)) implies ({
            let k = match s {
                SpendingModel::PubKey(k) => k,
            };
            &&& prefix_at(b@, pos as int, head(MAJOR_ARRAY, 2))
            &&& prefix_at(b@, pos + head(MAJOR_ARRAY, 2).len(), enc_uint(0))
            &&& prefix_at(b@, pos + head(MAJOR_ARRAY, 2).len() + enc_uint(0).len(), enc_bytes(k))
        }) by {
            let k = match s {
                SpendingModel::PubKey(k) => k,
            };
            lemma_prefix_concat(b@, pos as int, head(MAJOR_ARRAY, 2), enc_uint(0) + enc_bytes(k));
            lemma_prefix_concat(
                b@,
                pos + head(MAJOR_ARRAY, 2).len(),
                enc_uint(0),
                enc_bytes(k),
            );
        }
    }
    let (n, p1) = match read_head_of(b, pos, MAJOR_ARRAY) {
        Some(x) => x,
        None => return None,
    };
    if n != 2 {
        return None;
    }
    let (t, p2) = match read_uint(b, p1) {
        Some(x) => x,
        None => return None,
    };
    if t != 0 {
        return None;
    }
    let (k, p3) = match read_bytes(b, p2) {
        Some(x) => x,
        None => return None,
    };
    let key = match XPub::from_slice(k.as_slice()) {
        Ok(x) => x,
        Err(_) => return None,
    };
    proof {
        lemma_prefix_concat(b@, p1 as int, enc_uint(0), enc_bytes(k@));
        lemma_prefix_concat(b@, pos as int, head(MAJOR_ARRAY, 2), enc_uint(0) + enc_bytes(k@));
    }
    Some((SpendingData::PubKeyASD(key), p3))
}

fn read_payload(b: &[u8], pos: usize) -> (r: Option<(Option<HDAddressPayload>, usize)>)
    ensures
        r matches Some((x, p)) ==> p == pos + enc_payload(payload_model(x)).len() && prefix_at(
            b@,
            pos as int,
            enc_payload(payload_model(x)),
        ),
        forall|s: Option<Seq<u8>>| #[trigger]
            prefix_at(b@, pos as int, enc_payload(s)) ==> (r matches Some((x, p)) && payload_model(
                x,
            ) == s && p == pos + enc_payload(s).len()),
{
    proof {
        assert forall|s: Option<Seq<u8>>| #[trigger]
            prefix_at(b@, pos as int, enc_payload(s)) implies match s {
            None => prefix_at(b@, pos as int, head(MAJOR_ARRAY, 0)),
            Some(k) => prefix_at(b@, pos as int, head(MAJOR_ARRAY, 1)) && prefix_at(
                b@,
                pos + head(MAJOR_ARRAY, 1).len(),
                enc_bytes(k),
            ),
        } by {
            if let Some(k) = s {
                lemma_prefix_concat(b@, pos as int, head(MAJOR_ARRAY, 1), enc_bytes(k));
            }
        }
    }
    let (n, p1) = match read_head_of(b, pos, MAJOR_ARRAY) {
        Some(x) => x,
        None => return None,
    };
    if n == 0 {
        Some((None, p1))
    } else if n == 1 {
        let (k, p2) = match read_bytes(b, p1) {
            Some(x) => x,
            None => return None,
        };
        proof {
            lemma_prefix_concat(b@, pos as int, head(MAJOR_ARRAY, 1), enc_bytes(k@));
        }
        Some((Some(HDAddressPayload::from_vec(k)), p2))
    } else {
        None
    }
}

fn read_attributes(b: &[u8], pos: usize) -> (r: Option<(Attributes, usize)>)
    ensures
        r matches Some((x, p)) ==> p == pos + enc_attributes(
            payload_model(x.derivation_path),
            x.era,
        ).len() && prefix_at(
            b@,
            pos as int,
            enc_attributes(payload_model(x.derivation_path), x.era),
        ),
        forall|s: Option<Seq<u8>>, e: Era| #[trigger]
            prefix_at(b@, pos as int, enc_attributes(s, e)) ==> (r matches Some((x, p))
                && payload_model(x.derivation_path) == s && x.era == e && p == pos
                + enc_attributes(s, e).len()),
{
    proof {
        assert forall|s: Option<Seq<u8>>, e: Era| #[trigger]
            prefix_at(b@, pos as int, enc_attributes(s, e)) implies prefix_at(
            b@,
            pos as int,
            head(MAJOR_ARRAY, 2),
        ) && prefix_at(b@, pos + head(MAJOR_ARRAY, 2).len(), enc_payload(s)) && prefix_at(
            b@,
            pos + head(MAJOR_ARRAY, 2).len() + enc_payload(s).len(),
            enc_era(e),
        ) by {
            lemma_prefix_concat(b@, pos as int, head(MAJOR_ARRAY, 2), enc_payload(s) + enc_era(e));
            lemma_prefix_concat(
                b@,
                pos + head(MAJOR_ARRAY, 2).len(),
                enc_payload(s),
                enc_era(e),
            );
        }
    }
    let (n, p1) = match read_head_of(b, pos, MAJOR_ARRAY) {
        Some(x) => x,
        None => return None,
    };
    if n != 2 {
        return None;
    }
    let (path, p2) = match read_payload(b, p1) {
        Some(x) => x,
        None => return None,
    };
    let (era, p3) = match read_era(b, p2) {
        Some(x) => x,
        None => return None,
    };
    proof {
        let s = payload_model(path);
        lemma_prefix_concat(b@, p1 as int, enc_payload(s), enc_era(era));
        lemma_prefix_concat(b@, pos as int, head(MAJOR_ARRAY, 2), enc_payload(s) + enc_era(era));
    }
    Some((Attributes { derivation_path: path, era }, p3))
}

fn read_body(b: &[u8], pos: usize) -> (r: Option<(ExtendedAddr, usize)>)
    ensures
        r matches Some((x, p)) ==> valid_addr(x@) && p == pos + enc_body(x@).len() && prefix_at(
            b@,
            pos as int,
            enc_body(x@),
        ),
        forall|a: AddrModel|
            valid_addr(a) && #[trigger] prefix_at(b@, pos as int, enc_body(a)) ==> (r matches Some(
                (x, p),
            ) && x@ == a && p == pos + enc_body(a).len()),
{
    proof {
        assert forall|a: AddrModel| valid_addr(a) && #[trigger] prefix_at(b@, pos as int, enc_body(a)) implies {
            let p1 = pos + head(MAJOR_ARRAY, 3).len();
            let p2 = p1 + enc_addr_type(a.addr_type).len();
            let p3 = p2 + enc_spending(a.spending).len();
            &&& prefix_at(b@, pos as int, head(MAJOR_ARRAY, 3))
            &&& prefix_at(b@, p1, enc_addr_type(a.addr_type))
            &&& prefix_at(b@, p2, enc_spending(a.spending))
            &&& prefix_at(b@, p3, enc_attributes(a.payload, a.era))
        } by {
            let p1 = pos + head(MAJOR_ARRAY, 3).len();
            let p2 = p1 + enc_addr_type(a.addr_type).len();
            let sa = enc_spending(a.spending) + enc_attributes(a.payload, a.era);
            lemma_prefix_concat(b@, pos as int, head(MAJOR_ARRAY, 3), enc_addr_type(a.addr_type) + sa);
            lemma_prefix_concat(b@, p1, enc_addr_type(a.addr_type), sa);
            lemma_prefix_concat(b@, p2, enc_spending(a.spending), enc_attributes(a.payload, a.era));
        }
    }
    let (n, p1) = match read_head_of(b, pos, MAJOR_ARRAY) {
        Some(x) => x,
        None => return None,
    };
    if n != 3 {
        return None;
    }
    let (addr_type, p2) = match read_addr_type(b, p1) {
        Some(x) => x,
        None => return None,
    };
    let (spending_data, p3) = match read_spending(b, p2) {
        Some(x) => x,
        None => return None,
    };
    let (attributes, p4) = match read_attributes(b, p3) {
        Some(x) => x,
        None => return None,
    };
    let x = ExtendedAddr { addr_type, spending_data, attributes };
    proof {
        let a = x@;
        let sa = enc_spending(a.spending) + enc_attributes(a.payload, a.era);
        lemma_prefix_concat(b@, p2 as int, enc_spending(a.spending), enc_attributes(a.payload, a.era));
        lemma_prefix_concat(b@, p1 as int, enc_addr_type(a.addr_type), sa);
        lemma_prefix_concat(b@, pos as int, head(MAJOR_ARRAY, 3), enc_addr_type(a.addr_type) + sa);
    }
    Some((x, p4))
}

/// What a frame at the start of `b` says, when it runs to the end of `b`.
proof fn lemma_frame_parts(b: Seq<u8>, body: Seq<u8>, crc: u64)
    requires
        b == enc_frame(body, crc),
    ensures
        ({
            let p1 = head(MAJOR_ARRAY, 2).len() as int;
            let p2 = p1 + head(MAJOR_TAG, EMBEDDED_TAG).len();
            let p3 = p2 + enc_bytes(body).len();
            &&& prefix_at(b, 0, head(MAJOR_ARRAY, 2))
            &&& prefix_at(b, p1, head(MAJOR_TAG, EMBEDDED_TAG))
            &&& prefix_at(b, p2, enc_bytes(body))
            &&& prefix_at(b, p3, enc_uint(crc))
            &&& p3 + enc_uint(crc).len() == b.len()
        }),
{
    let p1 = head(MAJOR_ARRAY, 2).len() as int;
    let p2 = p1 + head(MAJOR_TAG, EMBEDDED_TAG).len();
    let rest = enc_bytes(body) + enc_uint(crc);
    assert(prefix_at(b, 0, b)) by {
        assert(b.subrange(0, b.len() as int) =~= b);
    }
    lemma_prefix_concat(b, 0, head(MAJOR_ARRAY, 2), head(MAJOR_TAG, EMBEDDED_TAG) + rest);
    lemma_prefix_concat(b, p1, head(MAJOR_TAG, EMBEDDED_TAG), rest);
    lemma_prefix_concat(b, p2, enc_bytes(body), enc_uint(crc));
}

/// The body bytes at the start of `b` are the whole of `b`.
proof fn lemma_whole(b: Seq<u8>, s: Seq<u8>)
    requires
        prefix_at(b, 0, s),
        s.len() == b.len(),
    ensures
        b == s,
{
    assert(b =~= b.subrange(0, s.len() as int));
}

proof fn lemma_spending_unique(b: Seq<u8>, pos: int, s1: SpendingModel, s2: SpendingModel)
    requires
        b.len() <= u64::MAX,
        prefix_at(b, pos, enc_spending(s1)),
        prefix_at(b, pos, enc_spending(s2)),
    ensures
        s1 == s2,
{
    let SpendingModel::PubKey(k1) = s1;
    let SpendingModel::PubKey(k2) = s2;
    let h = head(MAJOR_ARRAY, 2);
    lemma_prefix_concat(b, pos, h, enc_uint(0) + enc_bytes(k1));
    lemma_prefix_concat(b, pos, h, enc_uint(0) + enc_bytes(k2));
    lemma_prefix_concat(b, pos + h.len(), enc_uint(0), enc_bytes(k1));
    lemma_prefix_concat(b, pos + h.len(), enc_uint(0), enc_bytes(k2));
    lemma_bytes_unique(b, pos + h.len() + enc_uint(0).len(), k1, k2);
}

proof fn lemma_payload_unique(b: Seq<u8>, pos: int, p1: Option<Seq<u8>>, p2: Option<Seq<u8>>)
    requires
        b.len() <= u64::MAX,
        prefix_at(b, pos, enc_payload(p1)),
        prefix_at(b, pos, enc_payload(p2)),
    ensures
        p1 == p2,
{
    let n1: u64 = if p1 is Some { 1 } else { 0 };
    let n2: u64 = if p2 is Some { 1 } else { 0 };
    if let Some(k1) = p1 {
        lemma_prefix_concat(b, pos, head(MAJOR_ARRAY, 1), enc_bytes(k1));
    }
    if let Some(k2) = p2 {
        lemma_prefix_concat(b, pos, head(MAJOR_ARRAY, 1), enc_bytes(k2));
    }
    lemma_head_unique(b, pos, MAJOR_ARRAY, n1, MAJOR_ARRAY, n2);
    if let (Some(k1), Some(k2)) = (p1, p2) {
        lemma_bytes_unique(b, pos + head(MAJOR_ARRAY, 1).len(), k1, k2);
    }
}

proof fn lemma_body_unique(b: Seq<u8>, pos: int, a1: AddrModel, a2: AddrModel)
    requires
        b.len() <= u64::MAX,
        prefix_at(b, pos, enc_body(a1)),
        prefix_at(b, pos, enc_body(a2)),
    ensures
        a1 == a2,
{
    let h3 = head(MAJOR_ARRAY, 3);
    let h2 = head(MAJOR_ARRAY, 2);
    let t = enc_uint(0);
    let p1 = pos + h3.len() + t.len();
    let at1 = enc_attributes(a1.payload, a1.era);
    let at2 = enc_attributes(a2.payload, a2.era);
    lemma_prefix_concat(b, pos, h3, t + (enc_spending(a1.spending) + at1));
    lemma_prefix_concat(b, pos, h3, t + (enc_spending(a2.spending) + at2));
    lemma_prefix_concat(b, pos + h3.len(), t, enc_spending(a1.spending) + at1);
    lemma_prefix_concat(b, pos + h3.len(), t, enc_spending(a2.spending) + at2);
    lemma_prefix_concat(b, p1, enc_spending(a1.spending), at1);
    lemma_prefix_concat(b, p1, enc_spending(a2.spending), at2);
    lemma_spending_unique(b, p1, a1.spending, a2.spending);
    let p2 = p1 + enc_spending(a1.spending).len();
    lemma_prefix_concat(b, p2, h2, enc_payload(a1.payload) + enc_era(a1.era));
    lemma_prefix_concat(b, p2, h2, enc_payload(a2.payload) + enc_era(a2.era));
    lemma_prefix_concat(b, p2 + h2.len(), enc_payload(a1.payload), enc_era(a1.era));
    lemma_prefix_concat(b, p2 + h2.len(), enc_payload(a2.payload), enc_era(a2.era));
    lemma_payload_unique(b, p2 + h2.len(), a1.payload, a2.payload);
}

/// Two addresses cannot be encoded at the same position unless they are
/// equal.
pub proof fn lemma_addr_unique(b: Seq<u8>, pos: int, a1: AddrModel, a2: AddrModel)
    requires
        b.len() <= u64::MAX,
        prefix_at(b, pos, enc_addr(a1)),
        prefix_at(b, pos, enc_addr(a2)),
    ensures
        a1 == a2,
{
    let h2 = head(MAJOR_ARRAY, 2);
    let tag = head(MAJOR_TAG, EMBEDDED_TAG);
    let body1 = enc_body(a1);
    let body2 = enc_body(a2);
    let c1 = enc_uint(crc32_spec(body1) as u64);
    let c2 = enc_uint(crc32_spec(body2) as u64);
    lemma_prefix_concat(b, pos, h2, tag + (enc_bytes(body1) + c1));
    lemma_prefix_concat(b, pos, h2, tag + (enc_bytes(body2) + c2));
    lemma_prefix_concat(b, pos + h2.len(), tag, enc_bytes(body1) + c1);
    lemma_prefix_concat(b, pos + h2.len(), tag, enc_bytes(body2) + c2);
    lemma_prefix_concat(b, pos + h2.len() + tag.len(), enc_bytes(body1), c1);
    lemma_prefix_concat(b, pos + h2.len() + tag.len(), enc_bytes(body2), c2);
    lemma_bytes_unique(b, pos + h2.len() + tag.len(), body1, body2);
    assert(prefix_at(body1, 0, body1)) by {
        assert(body1.subrange(0, body1.len() as int) =~= body1);
    }
    lemma_body_unique(body1, 0, a1, a2);
}

/// The encoding of addresses is injective: distinct addresses have distinct
/// bytes, so decoding can give back the one address that was encoded.
pub proof fn law_addr_encoding_injective(a1: AddrModel, a2: AddrModel)
    requires
        enc_addr(a1).len() <= u64::MAX,
        enc_addr(a1) == enc_addr(a2),
    ensures
        a1 == a2,
{
    let b = enc_addr(a1);
    assert(prefix_at(b, 0, b)) by {
        assert(b.subrange(0, b.len() as int) =~= b);
    }
    lemma_addr_unique(b, 0, a1, a2);
}

/// Reads an address at `pos`, checksum included.
pub fn read_addr(b: &[u8], pos: usize) -> (r: Option<(ExtendedAddr, usize)>)
    ensures
        r matches Some((x, p)) ==> valid_addr(x@) && p == pos + enc_addr(x@).len() && prefix_at(
            b@,
            pos as int,
            enc_addr(x@),
        ),
        forall|a: AddrModel|
            valid_addr(a) && #[trigger] prefix_at(b@, pos as int, enc_addr(a)) ==> (r matches Some(
                (x, p),
            ) && x@ == a && p == pos + enc_addr(a).len()),
{
    proof {
        assert forall|a: AddrModel|
            valid_addr(a) && #[trigger] prefix_at(b@, pos as int, enc_addr(a)) implies ({
            let body = enc_body(a);
            let c = crc32_spec(body) as u64;
            let p1 = pos + head(MAJOR_ARRAY, 2).len();
            let p2 = p1 + head(MAJOR_TAG, EMBEDDED_TAG).len();
            let p3 = p2 + enc_bytes(body).len();
            &&& prefix_at(b@, pos as int, head(MAJOR_ARRAY, 2))
            &&& prefix_at(b@, p1, head(MAJOR_TAG, EMBEDDED_TAG))
            &&& prefix_at(b@, p2, enc_bytes(body))
            &&& prefix_at(b@, p3, enc_uint(c))
        }) by {
            let body = enc_body(a);
            let c = crc32_spec(body) as u64;
            let p1 = pos + head(MAJOR_ARRAY, 2).len();
            let p2 = p1 + head(MAJOR_TAG, EMBEDDED_TAG).len();
            let rest = enc_bytes(body) + enc_uint(c);
            lemma_prefix_concat(b@, pos as int, head(MAJOR_ARRAY, 2), head(MAJOR_TAG, EMBEDDED_TAG) + rest);
            lemma_prefix_concat(b@, p1, head(MAJOR_TAG, EMBEDDED_TAG), rest);
            lemma_prefix_concat(b@, p2, enc_bytes(body), enc_uint(c));
        }
    }
    let (n, p1) = match read_head_of(b, pos, MAJOR_ARRAY) {
        Some(x) => x,
        None => return None,
    };
    if n != 2 {
        return None;
    }
    let (tag, p2) = match read_head_of(b, p1, MAJOR_TAG) {
        Some(x) => x,
        None => return None,
    };
    if tag != EMBEDDED_TAG {
        return None;
    }
    let (body, p3) = match read_bytes(b, p2) {
        Some(x) => x,
        None => return None,
    };
    let (crc, p4) = match read_uint(b, p3) {
        Some(x) => x,
        None => return None,
    };
    proof {
        assert(prefix_at(body@, 0, body@)) by {
            assert(body@.subrange(0, body@.len() as int) =~= body@);
        }
    }
    let (x, q) = match read_body(body.as_slice(), 0) {
        Some(x) => x,
        None => return None,
    };
    if q != body.len() {
        return None;
    }
    if crc != crc32(body.as_slice()) as u64 {
        return None;
    }
    proof {
        lemma_whole(body@, enc_body(x@));
        lemma_prefix_concat(b@, p2 as int, enc_bytes(body@), enc_uint(crc));
        lemma_prefix_concat(
            b@,
            p1 as int,
            head(MAJOR_TAG, EMBEDDED_TAG),
            enc_bytes(body@) + enc_uint(crc),
        );
        lemma_prefix_concat(
            b@,
            pos as int,
            head(MAJOR_ARRAY, 2),
            head(MAJOR_TAG, EMBEDDED_TAG) + (enc_bytes(body@) + enc_uint(crc)),
        );
    }
    Some((x, p4))
}

impl ExtendedAddr {
    pub fn new(addr_type: AddrType, spending_data: SpendingData, attributes: Attributes) -> (r:
        ExtendedAddr)
        ensures
            r.addr_type == addr_type,
            r.spending_data == spending_data,
            r.attributes == attributes,
    {
        ExtendedAddr { addr_type, spending_data, attributes }
    }

    /// The sealed derivation path the address carries, if any.
    pub fn payload(&self) -> (r: Option<HDAddressPayload>)
        ensures
            payload_model(r) == self@.payload,
    {
        match &self.attributes.derivation_path {
            Some(p) => Some(p.clone()),
            None => None,
        }
    }

    fn body_bytes(&self) -> (r: Vec<u8>)
        ensures
            r@ == enc_body(self@),
            valid_addr(self@),
    {
        let mut out: Vec<u8> = Vec::new();
        push_head(&mut out, MAJOR_ARRAY, 3);
        match self.addr_type {
            AddrType::ATPubKey => push_uint(&mut out, 0),
        }
        match &self.spending_data {
            SpendingData::PubKeyASD(k) => {
                push_head(&mut out, MAJOR_ARRAY, 2);
                push_uint(&mut out, 0);
                push_bytes(&mut out, k.as_slice());
            },
        }
        push_head(&mut out, MAJOR_ARRAY, 2);
        match &self.attributes.derivation_path {
            None => push_head(&mut out, MAJOR_ARRAY, 0),
            Some(p) => {
                push_head(&mut out, MAJOR_ARRAY, 1);
                push_bytes(&mut out, p.as_slice());
            },
        }
        match self.attributes.era {
            Era::Bootstrap => push_uint(&mut out, 0),
        }
        let ghost a = self@;
        assert(out@ =~= enc_body(a));
        out
    }

    /// The canonical bytes of the address: its body framed with the body's
    /// CRC-32.
    pub fn to_bytes(&self) -> (r: Vec<u8>)
        ensures
            r@ == enc_addr(self@),
            valid_addr(self@),
    {
        let body = self.body_bytes();
        let crc = crc32(body.as_slice());
        let mut out: Vec<u8> = Vec::new();
        push_head(&mut out, MAJOR_ARRAY, 2);
        push_head(&mut out, MAJOR_TAG, EMBEDDED_TAG);
        push_bytes(&mut out, body.as_slice());
        push_uint(&mut out, crc as u64);
        assert(out@ =~= enc_addr(self@));
        out
    }

    /// Decodes an address: `ChecksumMismatch` when the bytes are a
    /// well-formed frame whose checksum is not the body's, `MalformedAddress`
    /// when they are no frame of an address at all.
    pub fn from_bytes(b: &[u8]) -> (r: Result<ExtendedAddr, Error>)
        ensures
            r matches Ok(x) ==> valid_addr(x@) && b@ == enc_addr(x@),
            forall|a: AddrModel| valid_addr(a) && b@ == #[trigger] enc_addr(a) ==> (r matches Ok(
                x,
            ) && x@ == a),
            r == Err::<ExtendedAddr, Error>(Error::ChecksumMismatch) <==> exists|a: AddrModel, c: u64|
                valid_addr(a) && c != crc32_spec(enc_body(a)) && b@ == #[trigger] enc_frame(
                    enc_body(a),
                    c,
                ),
            r matches Err(e) ==> e == Error::ChecksumMismatch || e == Error::MalformedAddress,
    {
        proof {
            assert forall|body: Seq<u8>, c: u64| b@ == #[trigger] enc_frame(body, c) implies ({
                let p1 = head(MAJOR_ARRAY, 2).len() as int;
                let p2 = p1 + head(MAJOR_TAG, EMBEDDED_TAG).len();
                let p3 = p2 + enc_bytes(body).len();
                &&& prefix_at(b@, 0, head(MAJOR_ARRAY, 2))
                &&& prefix_at(b@, p1, head(MAJOR_TAG, EMBEDDED_TAG))
                &&& prefix_at(b@, p2, enc_bytes(body))
                &&& prefix_at(b@, p3, enc_uint(c))
                &&& p3 + enc_uint(c).len() == b@.len()
            }) by {
                lemma_frame_parts(b@, body, c);
            }
        }
        let (n, p1) = match read_head_of(b, 0, MAJOR_ARRAY) {
            Some(x) => x,
            None => return Err(Error::MalformedAddress),
        };
        if n != 2 {
            return Err(Error::MalformedAddress);
        }
        let (tag, p2) = match read_head_of(b, p1, MAJOR_TAG) {
            Some(x) => x,
            None => return Err(Error::MalformedAddress),
        };
        if tag != EMBEDDED_TAG {
            return Err(Error::MalformedAddress);
        }
        let (body, p3) = match read_bytes(b, p2) {
            Some(x) => x,
            None => return Err(Error::MalformedAddress),
        };
        let (crc, p4) = match read_uint(b, p3) {
            Some(x) => x,
            None => return Err(Error::MalformedAddress),
        };
        if p4 != b.len() {
            return Err(Error::MalformedAddress);
        }
        proof {
            assert(prefix_at(body@, 0, body@)) by {
                assert(body@.subrange(0, body@.len() as int) =~= body@);
            }
        }
        let (x, q) = match read_body(body.as_slice(), 0) {
            Some(x) => x,
            None => return Err(Error::MalformedAddress),
        };
        if q != body.len() {
            return Err(Error::MalformedAddress);
        }
        proof {
            lemma_whole(body@, enc_body(x@));
            lemma_prefix_concat(b@, p2 as int, enc_bytes(body@), enc_uint(crc));
            lemma_prefix_concat(
                b@,
                p1 as int,
                head(MAJOR_TAG, EMBEDDED_TAG),
                enc_bytes(body@) + enc_uint(crc),
            );
            lemma_prefix_concat(
                b@,
                0,
                head(MAJOR_ARRAY, 2),
                head(MAJOR_TAG, EMBEDDED_TAG) + (enc_bytes(body@) + enc_uint(crc)),
            );
            lemma_whole(b@, enc_frame(body@, crc));
        }
        if crc != crc32(body.as_slice()) as u64 {
            proof {
                assert(b@ == enc_frame(enc_body(x@), crc));
            }
            return Err(Error::ChecksumMismatch);
        }
        Ok(x)
    }
}

} // verus!
