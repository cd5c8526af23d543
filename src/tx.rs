//! Transactions: ordered inputs and outputs, their canonical encoding and
//! hash, and the witness that signs that hash.
use vstd::prelude::*;
use crate::address::{enc_addr, lemma_addr_unique, read_addr, valid_addr, AddrModel, ExtendedAddr};
use crate::cbor::{
    enc_bytes, enc_uint, head, lemma_bytes_unique, lemma_head_unique, lemma_prefix_concat, prefix_at, push_bytes, push_head, push_uint,
    read_bytes, read_head_of, read_uint, MAJOR_ARRAY, MAJOR_UINT,
};
use crate::error::Error;
use crate::hdwallet::{to_public_spec, xprv_secret, Signature, XPrv, XPub};
use crate::primitives::{blake2b_256, blake2b_256_of, ed25519_sign_of, ed25519_verify_of};

verus! {

pub const HASH_SIZE: usize = 32;

/// The largest amount a coin may hold: the total supply, in its smallest
/// unit.
pub const MAX_COIN: u64 = 45_000_000_000_000_000;

/// The tag that opens the message a transaction witness signs.
pub const WITNESS_TAG: u8 = 1;

/// The hash that identifies an earlier transaction.
pub struct TxId {
    bytes: Vec<u8>,
}

impl View for TxId {
    type V = Seq<u8>;

    closed spec fn view(&self) -> Seq<u8> {
        self.bytes@
    }
}

impl TxId {
    #[verifier::type_invariant]
    spec fn inv(&self) -> bool {
        self.bytes@.len() == HASH_SIZE
    }

    /// An id holding exactly `b`; `MalformedKey` unless `b` has 32 bytes.
    pub fn from_slice(b: &[u8]) -> (r: Result<TxId, Error>)
        ensures
            b@.len() == HASH_SIZE ==> (r matches Ok(k) && k@ == b@),
            b@.len() != HASH_SIZE ==> r == Err::<TxId, Error>(Error::MalformedKey),
    {
        if b.len() != HASH_SIZE {
            return Err(Error::MalformedKey);
        }
        Ok(TxId { bytes: crate::cbor::copy_range(b, 0, b.len()) })
    }

    pub fn as_slice(&self) -> (r: &[u8])
        ensures
            r@ == self@,
            r@.len() == HASH_SIZE,
    {
        proof {
            use_type_invariant(self);
        }
        self.bytes.as_slice()
    }
}

/// An amount, never above `MAX_COIN`.
#[derive(Debug, Clone, Copy, PartialEq, Eq, Structural)]
pub struct Coin {
    value: u64,
}

impl View for Coin {
    type V = u64;

    closed spec fn view(&self) -> u64 {
        self.value
    }
}

impl Coin {
    #[verifier::type_invariant]
    spec fn inv(&self) -> bool {
        self.value <= MAX_COIN
    }

    /// A coin of `value`; `CoinTooLarge` above `MAX_COIN`.
    pub fn new(value: u64) -> (r: Result<Coin, Error>)
        ensures
            value <= MAX_COIN ==> (r matches Ok(c) && c@ == value),
            value > MAX_COIN ==> r == Err::<Coin, Error>(Error::CoinTooLarge),
    {
        if value > MAX_COIN {
            return Err(Error::CoinTooLarge);
        }
        Ok(Coin { value })
    }

    pub fn value(&self) -> (r: u64)
        ensures
            r == self@,
            r <= MAX_COIN,
    {
        proof {
            use_type_invariant(self);
        }
        self.value
    }
}

/// A reference to output `index` of transaction `id`.
pub struct TxIn {
    pub id: TxId,
    pub index: u32,
}

pub struct TxInModel {
    pub id: Seq<u8>,
    pub index: u32,
}

impl View for TxIn {
    type V = TxInModel;

    open spec fn view(&self) -> TxInModel {
        TxInModel { id: self.id@, index: self.index }
    }
}

impl TxIn {
    pub fn new(id: TxId, index: u32) -> (r: TxIn)
        ensures
            r.id == id,
            r.index == index,
    {
        TxIn { id, index }
    }

    /// The canonical encoding of the input.
    pub fn to_bytes(&self) -> (r: Vec<u8>)
        ensures
            r@ == enc_txin(self@),
    {
        let mut out: Vec<u8> = Vec::new();
        push_txin(&mut out, self);
        assert(out@ =~= enc_txin(self@));
        out
    }

    /// Decodes an input that fills `b` exactly.
    pub fn from_bytes(b: &[u8]) -> (r: Result<TxIn, Error>)
        ensures
            r matches Ok(x) ==> valid_txin(x@) && b@ == enc_txin(x@),
            forall|m: TxInModel| valid_txin(m) && b@ == #[trigger] enc_txin(m) ==> (r matches Ok(x)
                && x@ == m),
            r matches Err(e) ==> e == Error::MalformedTransaction,
    {
        proof {
            assert(b@.subrange(0, b@.len() as int) =~= b@);
            assert forall|m: TxInModel| b@ == #[trigger] enc_txin(m) implies prefix_at(b@, 0, enc_txin(m)) by {}
        }
        match read_txin(b, 0) {
            Some((x, p)) => {
                if p == b.len() {
                    proof {
                        assert(b@ =~= b@.subrange(0, p as int));
                    }
                    Ok(x)
                } else {
                    Err(Error::MalformedTransaction)
                }
            },
            None => Err(Error::MalformedTransaction),
        }
    }
}

/// A payment of `value` to `address`.
pub struct TxOut {
    pub address: ExtendedAddr,
    pub value: Coin,
}

pub struct TxOutModel {
    pub address: AddrModel,
    pub value: u64,
}

impl View for TxOut {
    type V = TxOutModel;

    open spec fn view(&self) -> TxOutModel {
        TxOutModel { address: self.address@, value: self.value@ }
    }
}

impl TxOut {
    pub fn new(address: ExtendedAddr, value: Coin) -> (r: TxOut)
        ensures
            r.address == address,
            r.value == value,
    {
        TxOut { address, value }
    }

    /// The canonical encoding of the output.
    pub fn to_bytes(&self) -> (r: Vec<u8>)
        ensures
            r@ == enc_txout(self@),
    {
        let mut out: Vec<u8> = Vec::new();
        push_txout(&mut out, self);
        assert(out@ =~= enc_txout(self@));
        out
    }

    /// Decodes an output that fills `b` exactly.
    pub fn from_bytes(b: &[u8]) -> (r: Result<TxOut, Error>)
        ensures
            r matches Ok(x) ==> valid_txout(x@) && b@ == enc_txout(x@),
            forall|m: TxOutModel| valid_txout(m) && b@ == #[trigger] enc_txout(m) ==> (r matches Ok(
                x,
            ) && x@ == m),
            r matches Err(e) ==> e == Error::MalformedTransaction,
    {
        proof {
            assert(b@.subrange(0, b@.len() as int) =~= b@);
            assert forall|m: TxOutModel| b@ == #[trigger] enc_txout(m) implies prefix_at(b@, 0, enc_txout(m)) by {}
        }
        match read_txout(b, 0) {
            Some((x, p)) => {
                if p == b.len() {
                    proof {
                        assert(b@ =~= b@.subrange(0, p as int));
                    }
                    Ok(x)
                } else {
                    Err(Error::MalformedTransaction)
                }
            },
            None => Err(Error::MalformedTransaction),
        }
    }
}

/// A transaction under construction: inputs and outputs, in order, which
/// only grow at the end.
pub struct Tx {
    inputs: Vec<TxIn>,
    outputs: Vec<TxOut>,
}

pub struct TxModel {
    pub inputs: Seq<TxInModel>,
    pub outputs: Seq<TxOutModel>,
}

impl View for Tx {
    type V = TxModel;

    closed spec fn view(&self) -> TxModel {
        TxModel {
            inputs: self.inputs@.map_values(|i: TxIn| i@),
            outputs: self.outputs@.map_values(|o: TxOut| o@),
        }
    }
}

/// An input: a two-element array of the id and the index.
pub open spec fn enc_txin(i: TxInModel) -> Seq<u8> {
    head(MAJOR_ARRAY, 2) + (enc_bytes(i.id) + enc_uint(i.index as u64))
}

/// An output: a two-element array of the address and the amount.
pub open spec fn enc_txout(o: TxOutModel) -> Seq<u8> {
    head(MAJOR_ARRAY, 2) + (enc_addr(o.address) + enc_uint(o.value))
}

pub open spec fn enc_txins(s: Seq<TxInModel>) -> Seq<u8>
    decreases s.len(),
{
    if s.len() == 0 {
        seq![]
    } else {
        enc_txins(s.drop_last()) + enc_txin(s.last())
    }
}

pub open spec fn enc_txouts(s: Seq<TxOutModel>) -> Seq<u8>
    decreases s.len(),
{
    if s.len() == 0 {
        seq![]
    } else {
        enc_txouts(s.drop_last()) + enc_txout(s.last())
    }
}

/// A transaction: a two-element array of the array of inputs and the array
/// of outputs, each in order.
pub open spec fn enc_tx(t: TxModel) -> Seq<u8> {
    head(MAJOR_ARRAY, 2) + ((head(MAJOR_ARRAY, t.inputs.len() as u64) + enc_txins(t.inputs)) + (
    head(MAJOR_ARRAY, t.outputs.len() as u64) + enc_txouts(t.outputs)))
}

/// The canonical hash of a transaction.
pub open spec fn tx_hash(t: TxModel) -> Seq<u8> {
    blake2b_256_of(enc_tx(t))
}

/// What a witness signs: the witness tag, then the hash as a byte string.
pub open spec fn witness_msg(t: TxModel) -> Seq<u8> {
    seq![WITNESS_TAG] + enc_bytes(tx_hash(t))
}

fn push_txin(out: &mut Vec<u8>, i: &TxIn)
    ensures
        final(out)@ == old(out)@ + enc_txin(i@),
{
    push_head(out, MAJOR_ARRAY, 2);
    push_bytes(out, i.id.as_slice());
    push_uint(out, i.index as u64);
    assert(final(out)@ =~= old(out)@ + enc_txin(i@));
}

fn push_txout(out: &mut Vec<u8>, o: &TxOut)
    ensures
        final(out)@ == old(out)@ + enc_txout(o@),
        valid_addr(o.address@),
{
    push_head(out, MAJOR_ARRAY, 2);
    let a = o.address.to_bytes();
    let mut i: usize = 0;
    let ghost start = out@;
    while i < a.len()
        invariant
            i <= a@.len(),
            out@ == start + a@.subrange(0, i as int),
        decreases a@.len() - i,
    {
        out.push(a[i]);
        i = i + 1;
        assert(out@ =~= start + a@.subrange(0, i as int));
    }
    assert(a@.subrange(0, a@.len() as int) =~= a@);
    push_uint(out, o.value.value());
    assert(final(out)@ =~= old(out)@ + enc_txout(o@));
}

impl Tx {
    /// A transaction with no inputs and no outputs.
    pub fn new() -> (r: Tx)
        ensures
            r@.inputs.len() == 0,
            r@.outputs.len() == 0,
    {
        Tx { inputs: Vec::new(), outputs: Vec::new() }
    }

    /// The inputs, in order.
    pub fn inputs(&self) -> (r: &[TxIn])
        ensures
            r@.map_values(|x: TxIn| x@) == self@.inputs,
    {
        self.inputs.as_slice()
    }

    /// The outputs, in order.
    pub fn outputs(&self) -> (r: &[TxOut])
        ensures
            r@.map_values(|x: TxOut| x@) == self@.outputs,
    {
        self.outputs.as_slice()
    }

    /// Appends `i` to the inputs.
    pub fn add_input(&mut self, i: TxIn)
        ensures
            final(self)@.inputs == old(self)@.inputs.push(i@),
            final(self)@.outputs == old(self)@.outputs,
    {
        let ghost iv = i@;
        self.inputs.push(i);
        proof {
            assert(self@.inputs =~= old(self)@.inputs.push(iv));
            assert(self@.outputs =~= old(self)@.outputs);
        }
    }

    /// Appends `o` to the outputs.
    pub fn add_output(&mut self, o: TxOut)
        ensures
            final(self)@.outputs == old(self)@.outputs.push(o@),
            final(self)@.inputs == old(self)@.inputs,
    {
        let ghost ov = o@;
        self.outputs.push(o);
        proof {
            assert(self@.outputs =~= old(self)@.outputs.push(ov));
            assert(self@.inputs =~= old(self)@.inputs);
        }
    }

    /// The canonical encoding of the transaction.
    pub fn to_bytes(&self) -> (r: Vec<u8>)
        ensures
            r@ == enc_tx(self@),
    {
        let ghost t = self@;
        let mut out: Vec<u8> = Vec::new();
        push_head(&mut out, MAJOR_ARRAY, 2);
        let ghost s0 = out@;
        push_head(&mut out, MAJOR_ARRAY, self.inputs.len() as u64);
        let ghost s1 = out@;
        let mut i: usize = 0;
        while i < self.inputs.len()
            invariant
                i <= self.inputs@.len(),
                t == self@,
                out@ == s1 + enc_txins(t.inputs.subrange(0, i as int)),
            decreases self.inputs@.len() - i,
        {
            push_txin(&mut out, &self.inputs[i]);
            proof {
                assert(t.inputs.subrange(0, i + 1).drop_last() =~= t.inputs.subrange(0, i as int));
            }
            i = i + 1;
            assert(out@ =~= s1 + enc_txins(t.inputs.subrange(0, i as int)));
        }
        assert(t.inputs.subrange(0, t.inputs.len() as int) =~= t.inputs);
        let ghost s2 = out@;
        push_head(&mut out, MAJOR_ARRAY, self.outputs.len() as u64);
        let ghost s3 = out@;
        let mut j: usize = 0;
        while j < self.outputs.len()
            invariant
                j <= self.outputs@.len(),
                t == self@,
                out@ == s3 + enc_txouts(t.outputs.subrange(0, j as int)),
            decreases self.outputs@.len() - j,
        {
            push_txout(&mut out, &self.outputs[j]);
            proof {
                assert(t.outputs.subrange(0, j + 1).drop_last() =~= t.outputs.subrange(0, j as int));
            }
            j = j + 1;
            assert(out@ =~= s3 + enc_txouts(t.outputs.subrange(0, j as int)));
        }
        assert(t.outputs.subrange(0, t.outputs.len() as int) =~= t.outputs);
        assert(out@ =~= enc_tx(t));
        out
    }

/// Decodes a transaction that fills `b` exactly.
    pub fn from_bytes(b: &[u8]) -> (r: Result<Tx, Error>)
        ensures
            r matches Ok(t) ==> valid_tx(t@) && b@ == enc_tx(t@),
            forall|m: TxModel| valid_tx(m) && b@ == #[trigger] enc_tx(m) ==> (r matches Ok(t) && t@ == m),
            r matches Err(e) ==> e == Error::MalformedTransaction,
    {
        let blen = b.len();
        proof {
            assert forall|m: TxModel| valid_tx(m) && b@ == #[trigger] enc_tx(m) implies ({
                let h2 = head(MAJOR_ARRAY, 2).len() as int;
                let hin = head(MAJOR_ARRAY, m.inputs.len() as u64);
                let hout = head(MAJOR_ARRAY, m.outputs.len() as u64);
                let pi0 = h2 + hin.len();
                let q = pi0 + enc_txins(m.inputs).len();
                let po0 = q + hout.len();
                &&& prefix_at(b@, 0, head(MAJOR_ARRAY, 2))
                &&& prefix_at(b@, h2, hin)
                &&& prefix_at(b@, pi0, enc_txins(m.inputs))
                &&& prefix_at(b@, q, hout)
                &&& prefix_at(b@, po0, enc_txouts(m.outputs))
                &&& po0 + enc_txouts(m.outputs).len() == b@.len()
                &&& m.inputs.len() as u64 == m.inputs.len()
                &&& m.outputs.len() as u64 == m.outputs.len()
            }) by {
                let h2 = head(MAJOR_ARRAY, 2).len() as int;
                let hin = head(MAJOR_ARRAY, m.inputs.len() as u64);
                let hout = head(MAJOR_ARRAY, m.outputs.len() as u64);
                let ins = hin + enc_txins(m.inputs);
                let outs = hout + enc_txouts(m.outputs);
                assert(b@.subrange(0, b@.len() as int) =~= b@);
                lemma_prefix_concat(b@, 0, head(MAJOR_ARRAY, 2), ins + outs);
                lemma_prefix_concat(b@, h2, ins, outs);
                lemma_prefix_concat(b@, h2, hin, enc_txins(m.inputs));
                lemma_prefix_concat(b@, h2 + ins.len(), hout, enc_txouts(m.outputs));
                lemma_txins_len(m.inputs);
                lemma_txouts_len(m.outputs);
                assert(m.inputs.len() <= blen);
                assert(m.outputs.len() <= blen);
            }
        }
        let (n, p1) = match read_head_of(b, 0, MAJOR_ARRAY) {
            Some(x) => x,
            None => return Err(Error::MalformedTransaction),
        };
        if n != 2 {
            return Err(Error::MalformedTransaction);
        }
        let (nin, pi0) = match read_head_of(b, p1, MAJOR_ARRAY) {
            Some(x) => x,
            None => return Err(Error::MalformedTransaction),
        };
        let (inputs, q) = match read_txins(b, pi0, nin) {
            Some(x) => x,
            None => return Err(Error::MalformedTransaction),
        };
        let (nout, po0) = match read_head_of(b, q, MAJOR_ARRAY) {
            Some(x) => x,
            None => return Err(Error::MalformedTransaction),
        };
        let (outputs, pos) = match read_txouts(b, po0, nout) {
            Some(x) => x,
            None => return Err(Error::MalformedTransaction),
        };
        if pos != b.len() {
            return Err(Error::MalformedTransaction);
        }
        let ghost ins_v = inputs@.map_values(|x: TxIn| x@);
        let ghost outs_v = outputs@.map_values(|x: TxOut| x@);
        let t = Tx { inputs, outputs };
        proof {
            assert(t@.inputs == ins_v);
            assert(t@.outputs == outs_v);
            let hin = head(MAJOR_ARRAY, nin);
            let hout = head(MAJOR_ARRAY, nout);
            lemma_prefix_concat(b@, p1 as int, hin, enc_txins(ins_v));
            lemma_prefix_concat(b@, q as int, hout, enc_txouts(outs_v));
            lemma_prefix_concat(b@, p1 as int, hin + enc_txins(ins_v), hout + enc_txouts(outs_v));
            lemma_prefix_concat(
                b@,
                0,
                head(MAJOR_ARRAY, 2),
                (hin + enc_txins(ins_v)) + (hout + enc_txouts(outs_v)),
            );
            assert(b@ =~= enc_tx(t@)) by {
                assert(b@.subrange(0, b@.len() as int) =~= b@);
            }
        }
        Ok(t)
    }

    /// The canonical hash: BLAKE2b-256 of the canonical encoding.
    pub fn id(&self) -> (r: Vec<u8>)
        ensures
            r@ == tx_hash(self@),
            r@.len() == HASH_SIZE,
    {
        let b = self.to_bytes();
        blake2b_256(b.as_slice())
    }
}

fn mk_witness_msg(tx: &Tx) -> (r: Vec<u8>)
    ensures
        r@ == witness_msg(tx@),
{
    let h = tx.id();
    let mut msg: Vec<u8> = Vec::new();
    msg.push(WITNESS_TAG);
    push_bytes(&mut msg, h.as_slice());
    assert(msg@ =~= witness_msg(tx@));
    msg
}

/// Proof that the holder of a key authored a transaction.
pub enum TxInWitness {
    PkWitness(XPub, Signature<Tx>),
}

impl TxInWitness {
    /// The witness of `key` for `tx`: its public key and its signature of
    /// the tagged transaction hash.
    pub fn new(key: &XPrv, tx: &Tx) -> (r: TxInWitness)
        ensures
            match r {
                TxInWitness::PkWitness(p, s) => p@ == to_public_spec(key@) && s@ == ed25519_sign_of(
                    xprv_secret(key@),
                    witness_msg(tx@),
                ),
            },
    {
        let msg = mk_witness_msg(tx);
        TxInWitness::PkWitness(key.public(), key.sign(msg.as_slice()))
    }

    /// Whether the witness's signature is valid for `tx` under its key.
    pub fn verify_tx(&self, tx: &Tx) -> (r: bool)
        ensures
            match self {
                TxInWitness::PkWitness(p, s) => r == ed25519_verify_of(
                    p@.subrange(0, 32),
                    witness_msg(tx@),
                    s@,
                ),
            },
    {
        let msg = mk_witness_msg(tx);
        match self {
            TxInWitness::PkWitness(p, s) => p.verify(msg.as_slice(), s),
        }
    }
}

pub open spec fn valid_txin(i: TxInModel) -> bool {
    i.id.len() == HASH_SIZE
}

pub open spec fn valid_txout(o: TxOutModel) -> bool {
    valid_addr(o.address) && o.value <= MAX_COIN
}

pub open spec fn valid_txins(s: Seq<TxInModel>) -> bool {
    forall|k: int| 0 <= k < s.len() ==> valid_txin(#[trigger] s[k])
}

pub open spec fn valid_txouts(s: Seq<TxOutModel>) -> bool {
    forall|k: int| 0 <= k < s.len() ==> valid_txout(#[trigger] s[k])
}

/// A transaction that values of the library can hold.
pub open spec fn valid_tx(t: TxModel) -> bool {
    valid_txins(t.inputs) && valid_txouts(t.outputs)
}

/// Reads an input at `pos`.
pub fn read_txin(b: &[u8], pos: usize) -> (r: Option<(TxIn, usize)>)
    ensures
        r matches Some((x, p)) ==> valid_txin(x@) && p == pos + enc_txin(x@).len() && prefix_at(
            b@,
            pos as int,
            enc_txin(x@),
        ),
        forall|m: TxInModel|
            valid_txin(m) && #[trigger] prefix_at(b@, pos as int, enc_txin(m)) ==> (r matches Some(
                (x, p),
            ) && x@ == m && p == pos + enc_txin(m).len()),
{
    proof {
        assert forall|m: TxInModel|
            valid_txin(m) && #[trigger] prefix_at(b@, pos as int, enc_txin(m)) implies ({
            let p1 = pos + head(MAJOR_ARRAY, 2).len();
            &&& prefix_at(b@, pos as int, head(MAJOR_ARRAY, 2))
            &&& prefix_at(b@, p1, enc_bytes(m.id))
            &&& prefix_at(b@, p1 + enc_bytes(m.id).len(), enc_uint(m.index as u64))
        }) by {
            let p1 = pos + head(MAJOR_ARRAY, 2).len();
            lemma_prefix_concat(
                b@,
                pos as int,
                head(MAJOR_ARRAY, 2),
                enc_bytes(m.id) + enc_uint(m.index as u64),
            );
            lemma_prefix_concat(b@, p1, enc_bytes(m.id), enc_uint(m.index as u64));
        }
    }
    let (n, p1) = match read_head_of(b, pos, MAJOR_ARRAY) {
        Some(x) => x,
        None => return None,
    };
    if n != 2 {
        return None;
    }
    let (idb, p2) = match read_bytes(b, p1) {
        Some(x) => x,
        None => return None,
    };
    let (index, p3) = match read_uint(b, p2) {
        Some(x) => x,
        None => return None,
    };
    if index > 0xFFFF_FFFF {
        return None;
    }
    let id = match TxId::from_slice(idb.as_slice()) {
        Ok(x) => x,
        Err(_) => return None,
    };
    let x = TxIn { id, index: index as u32 };
    proof {
        assert((index as u32) as u64 == index);
        lemma_prefix_concat(b@, p1 as int, enc_bytes(idb@), enc_uint(index));
        lemma_prefix_concat(b@, pos as int, head(MAJOR_ARRAY, 2), enc_bytes(idb@) + enc_uint(index));
    }
    Some((x, p3))
}

/// Reads an output at `pos`.
pub fn read_txout(b: &[u8], pos: usize) -> (r: Option<(TxOut, usize)>)
    ensures
        r matches Some((x, p)) ==> valid_txout(x@) && p == pos + enc_txout(x@).len() && prefix_at(
            b@,
            pos as int,
            enc_txout(x@),
        ),
        forall|m: TxOutModel|
            valid_txout(m) && #[trigger] prefix_at(b@, pos as int, enc_txout(m)) ==> (
            r matches Some((x, p)) && x@ == m && p == pos + enc_txout(m).len()),
{
    proof {
        assert forall|m: TxOutModel|
            valid_txout(m) && #[trigger] prefix_at(b@, pos as int, enc_txout(m)) implies ({
            let p1 = pos + head(MAJOR_ARRAY, 2).len();
            &&& prefix_at(b@, pos as int, head(MAJOR_ARRAY, 2))
            &&& prefix_at(b@, p1, enc_addr(m.address))
            &&& prefix_at(b@, p1 + enc_addr(m.address).len(), enc_uint(m.value))
        }) by {
            let p1 = pos + head(MAJOR_ARRAY, 2).len();
            lemma_prefix_concat(
                b@,
                pos as int,
                head(MAJOR_ARRAY, 2),
                enc_addr(m.address) + enc_uint(m.value),
            );
            lemma_prefix_concat(b@, p1, enc_addr(m.address), enc_uint(m.value));
        }
    }
    let (n, p1) = match read_head_of(b, pos, MAJOR_ARRAY) {
        Some(x) => x,
        None => return None,
    };
    if n != 2 {
        return None;
    }
    let (address, p2) = match read_addr(b, p1) {
        Some(x) => x,
        None => return None,
    };
    let (v, p3) = match read_uint(b, p2) {
        Some(x) => x,
        None => return None,
    };
    let value = match Coin::new(v) {
        Ok(c) => c,
        Err(_) => return None,
    };
    let x = TxOut { address, value };
    proof {
        lemma_prefix_concat(b@, p1 as int, enc_addr(x@.address), enc_uint(v));
        lemma_prefix_concat(
            b@,
            pos as int,
            head(MAJOR_ARRAY, 2),
            enc_addr(x@.address) + enc_uint(v),
        );
    }
    Some((x, p3))
}

/// Reads `n` inputs in a row at `pos`.
fn read_txins(b: &[u8], pos: usize, n: u64) -> (r: Option<(Vec<TxIn>, usize)>)
    ensures
        r matches Some((v, p)) ==> v@.len() == n && valid_txins(v@.map_values(|x: TxIn| x@))
            && p == pos + enc_txins(v@.map_values(|x: TxIn| x@)).len() && prefix_at(
            b@,
            pos as int,
            enc_txins(v@.map_values(|x: TxIn| x@)),
        ),
        forall|s: Seq<TxInModel>|
            s.len() == n && valid_txins(s) && #[trigger] prefix_at(b@, pos as int, enc_txins(s))
                ==> (r matches Some((v, p)) && v@.map_values(|x: TxIn| x@) == s && p == pos
                + enc_txins(s).len()),
{
    if pos > b.len() {
        return None;
    }
    let mut inputs: Vec<TxIn> = Vec::new();
    proof {
        assert(inputs@.map_values(|x: TxIn| x@) =~= seq![]);
        assert(enc_txins(seq![]) =~= seq![]);
        assert(b@.subrange(pos as int, pos as int) =~= seq![]);
        assert forall|s: Seq<TxInModel>| s.len() == n && valid_txins(s) && #[trigger] prefix_at(
            b@,
            pos as int,
            enc_txins(s),
        ) implies inputs@.map_values(|x: TxIn| x@) == s.subrange(0, 0) by {
            assert(inputs@.map_values(|x: TxIn| x@) =~= s.subrange(0, 0));
        }
    }
    let mut cur: usize = pos;
    let mut i: u64 = 0;
    while i < n
        invariant
            i <= n,
            inputs@.len() == i,
            pos <= cur <= b@.len(),
            prefix_at(b@, pos as int, enc_txins(inputs@.map_values(|x: TxIn| x@))),
            cur == pos + enc_txins(inputs@.map_values(|x: TxIn| x@)).len(),
            valid_txins(inputs@.map_values(|x: TxIn| x@)),
            forall|s: Seq<TxInModel>|
                s.len() == n && valid_txins(s) && #[trigger] prefix_at(b@, pos as int, enc_txins(s))
                    ==> inputs@.map_values(|x: TxIn| x@) == s.subrange(0, i as int),
        decreases n - i,
    {
        proof {
            assert forall|s: Seq<TxInModel>|
                s.len() == n && valid_txins(s) && #[trigger] prefix_at(b@, pos as int, enc_txins(s))
                implies prefix_at(b@, cur as int, enc_txin(s[i as int])) && valid_txin(s[i as int]) by {
                lemma_txins_prefix(b@, pos as int, s, i as int);
            }
        }
        let (x, p) = match read_txin(b, cur) {
            Some(x) => x,
            None => return None,
        };
        let ghost old_v = inputs@.map_values(|x: TxIn| x@);
        let ghost xv = x@;
        inputs.push(x);
        proof {
            assert(inputs@.map_values(|x: TxIn| x@) =~= old_v.push(xv));
            assert(old_v.push(xv).drop_last() =~= old_v);
            lemma_prefix_concat(b@, pos as int, enc_txins(old_v), enc_txin(xv));
            assert forall|s: Seq<TxInModel>|
                s.len() == n && valid_txins(s) && #[trigger] prefix_at(b@, pos as int, enc_txins(s))
                implies inputs@.map_values(|x: TxIn| x@) == s.subrange(0, i + 1) by {
                assert(inputs@.map_values(|x: TxIn| x@) =~= s.subrange(0, i + 1));
            }
            assert forall|k: int| 0 <= k < old_v.len() + 1 implies valid_txin(
                #[trigger] old_v.push(xv)[k],
            ) by {
                if k < old_v.len() {
                    assert(old_v.push(xv)[k] == old_v[k]);
                }
            }
        }
        cur = p;
        i = i + 1;
    }
    proof {
        assert forall|s: Seq<TxInModel>|
            s.len() == n && valid_txins(s) && #[trigger] prefix_at(b@, pos as int, enc_txins(s))
            implies inputs@.map_values(|x: TxIn| x@) == s by {
            assert(s.subrange(0, s.len() as int) =~= s);
        }
    }
    Some((inputs, cur))
}

/// Reads `n` outputs in a row at `pos`.
fn read_txouts(b: &[u8], pos: usize, n: u64) -> (r: Option<(Vec<TxOut>, usize)>)
    ensures
        r matches Some((v, p)) ==> v@.len() == n && valid_txouts(v@.map_values(|x: TxOut| x@))
            && p == pos + enc_txouts(v@.map_values(|x: TxOut| x@)).len() && prefix_at(
            b@,
            pos as int,
            enc_txouts(v@.map_values(|x: TxOut| x@)),
        ),
        forall|s: Seq<TxOutModel>|
            s.len() == n && valid_txouts(s) && #[trigger] prefix_at(b@, pos as int, enc_txouts(s))
                ==> (r matches Some((v, p)) && v@.map_values(|x: TxOut| x@) == s && p == pos
                + enc_txouts(s).len()),
{
    if pos > b.len() {
        return None;
    }
    let mut outputs: Vec<TxOut> = Vec::new();
    proof {
        assert(outputs@.map_values(|x: TxOut| x@) =~= seq![]);
        assert(enc_txouts(seq![]) =~= seq![]);
        assert(b@.subrange(pos as int, pos as int) =~= seq![]);
        assert forall|s: Seq<TxOutModel>| s.len() == n && valid_txouts(s) && #[trigger] prefix_at(
            b@,
            pos as int,
            enc_txouts(s),
        ) implies outputs@.map_values(|x: TxOut| x@) == s.subrange(0, 0) by {
            assert(outputs@.map_values(|x: TxOut| x@) =~= s.subrange(0, 0));
        }
    }
    let mut cur: usize = pos;
    let mut i: u64 = 0;
    while i < n
        invariant
            i <= n,
            outputs@.len() == i,
            pos <= cur <= b@.len(),
            prefix_at(b@, pos as int, enc_txouts(outputs@.map_values(|x: TxOut| x@))),
            cur == pos + enc_txouts(outputs@.map_values(|x: TxOut| x@)).len(),
            valid_txouts(outputs@.map_values(|x: TxOut| x@)),
            forall|s: Seq<TxOutModel>|
                s.len() == n && valid_txouts(s) && #[trigger] prefix_at(b@, pos as int, enc_txouts(s))
                    ==> outputs@.map_values(|x: TxOut| x@) == s.subrange(0, i as int),
        decreases n - i,
    {
        proof {
            assert forall|s: Seq<TxOutModel>|
                s.len() == n && valid_txouts(s) && #[trigger] prefix_at(b@, pos as int, enc_txouts(s))
                implies prefix_at(b@, cur as int, enc_txout(s[i as int])) && valid_txout(s[i as int]) by {
                lemma_txouts_prefix(b@, pos as int, s, i as int);
            }
        }
        let (x, p) = match read_txout(b, cur) {
            Some(x) => x,
            None => return None,
        };
        let ghost old_v = outputs@.map_values(|x: TxOut| x@);
        let ghost xv = x@;
        outputs.push(x);
        proof {
            assert(outputs@.map_values(|x: TxOut| x@) =~= old_v.push(xv));
            assert(old_v.push(xv).drop_last() =~= old_v);
            lemma_prefix_concat(b@, pos as int, enc_txouts(old_v), enc_txout(xv));
            assert forall|s: Seq<TxOutModel>|
                s.len() == n && valid_txouts(s) && #[trigger] prefix_at(b@, pos as int, enc_txouts(s))
                implies outputs@.map_values(|x: TxOut| x@) == s.subrange(0, i + 1) by {
                assert(outputs@.map_values(|x: TxOut| x@) =~= s.subrange(0, i + 1));
            }
            assert forall|k: int| 0 <= k < old_v.len() + 1 implies valid_txout(
                #[trigger] old_v.push(xv)[k],
            ) by {
                if k < old_v.len() {
                    assert(old_v.push(xv)[k] == old_v[k]);
                }
            }
        }
        cur = p;
        i = i + 1;
    }
    proof {
        assert forall|s: Seq<TxOutModel>|
            s.len() == n && valid_txouts(s) && #[trigger] prefix_at(b@, pos as int, enc_txouts(s))
            implies outputs@.map_values(|x: TxOut| x@) == s by {
            assert(s.subrange(0, s.len() as int) =~= s);
        }
    }
    Some((outputs, cur))
}

proof fn lemma_txins_prefix(b: Seq<u8>, pos: int, s: Seq<TxInModel>, j: int)
    requires
        0 <= j <= s.len(),
        prefix_at(b, pos, enc_txins(s)),
    ensures
        prefix_at(b, pos, enc_txins(s.subrange(0, j))),
        j < s.len() ==> prefix_at(
            b,
            pos + enc_txins(s.subrange(0, j)).len(),
            enc_txin(s[j]),
        ),
    decreases s.len() - j,
{
    if j == s.len() {
        assert(s.subrange(0, j) =~= s);
    } else {
        lemma_txins_prefix(b, pos, s, j + 1);
        assert(s.subrange(0, j + 1).drop_last() =~= s.subrange(0, j));
        lemma_prefix_concat(b, pos, enc_txins(s.subrange(0, j)), enc_txin(s[j]));
    }
}

proof fn lemma_txouts_prefix(b: Seq<u8>, pos: int, s: Seq<TxOutModel>, j: int)
    requires
        0 <= j <= s.len(),
        prefix_at(b, pos, enc_txouts(s)),
    ensures
        prefix_at(b, pos, enc_txouts(s.subrange(0, j))),
        j < s.len() ==> prefix_at(
            b,
            pos + enc_txouts(s.subrange(0, j)).len(),
            enc_txout(s[j]),
        ),
    decreases s.len() - j,
{
    if j == s.len() {
        assert(s.subrange(0, j) =~= s);
    } else {
        lemma_txouts_prefix(b, pos, s, j + 1);
        assert(s.subrange(0, j + 1).drop_last() =~= s.subrange(0, j));
        lemma_prefix_concat(b, pos, enc_txouts(s.subrange(0, j)), enc_txout(s[j]));
    }
}

proof fn lemma_txins_len(s: Seq<TxInModel>)
    ensures
        enc_txins(s).len() >= s.len(),
    decreases s.len(),
{
    if s.len() > 0 {
        lemma_txins_len(s.drop_last());
    }
}

proof fn lemma_txouts_len(s: Seq<TxOutModel>)
    ensures
        enc_txouts(s).len() >= s.len(),
    decreases s.len(),
{
    if s.len() > 0 {
        lemma_txouts_len(s.drop_last());
    }
}

proof fn lemma_txin_unique(b: Seq<u8>, pos: int, a: TxInModel, c: TxInModel)
    requires
        b.len() <= u64::MAX,
        prefix_at(b, pos, enc_txin(a)),
        prefix_at(b, pos, enc_txin(c)),
    ensures
        a == c,
{
    let h = head(MAJOR_ARRAY, 2);
    lemma_prefix_concat(b, pos, h, enc_bytes(a.id) + enc_uint(a.index as u64));
    lemma_prefix_concat(b, pos, h, enc_bytes(c.id) + enc_uint(c.index as u64));
    lemma_prefix_concat(b, pos + h.len(), enc_bytes(a.id), enc_uint(a.index as u64));
    lemma_prefix_concat(b, pos + h.len(), enc_bytes(c.id), enc_uint(c.index as u64));
    lemma_bytes_unique(b, pos + h.len(), a.id, c.id);
    lemma_head_unique(
        b,
        pos + h.len() + enc_bytes(a.id).len(),
        MAJOR_UINT,
        a.index as u64,
        MAJOR_UINT,
        c.index as u64,
    );
}

proof fn lemma_txins_agree(b: Seq<u8>, pos: int, s1: Seq<TxInModel>, s2: Seq<TxInModel>, j: int)
    requires
        b.len() <= u64::MAX,
        s1.len() == s2.len(),
        0 <= j <= s1.len(),
        prefix_at(b, pos, enc_txins(s1)),
        prefix_at(b, pos, enc_txins(s2)),
    ensures
        s1.subrange(0, j) == s2.subrange(0, j),
    decreases j,
{
    if j > 0 {
        let k = j - 1;
        lemma_txins_agree(b, pos, s1, s2, k);
        lemma_txins_prefix(b, pos, s1, k);
        lemma_txins_prefix(b, pos, s2, k);
        lemma_txin_unique(b, pos + enc_txins(s1.subrange(0, k)).len(), s1[k], s2[k]);
        assert(s1.subrange(0, j) =~= s1.subrange(0, k).push(s1[k]));
        assert(s2.subrange(0, j) =~= s2.subrange(0, k).push(s2[k]));
    } else {
        assert(s1.subrange(0, 0) =~= s2.subrange(0, 0));
    }
}

proof fn lemma_txout_unique(b: Seq<u8>, pos: int, a: TxOutModel, c: TxOutModel)
    requires
        b.len() <= u64::MAX,
        prefix_at(b, pos, enc_txout(a)),
        prefix_at(b, pos, enc_txout(c)),
    ensures
        a == c,
{
    let h = head(MAJOR_ARRAY, 2);
    lemma_prefix_concat(b, pos, h, enc_addr(a.address) + enc_uint(a.value));
    lemma_prefix_concat(b, pos, h, enc_addr(c.address) + enc_uint(c.value));
    lemma_prefix_concat(b, pos + h.len(), enc_addr(a.address), enc_uint(a.value));
    lemma_prefix_concat(b, pos + h.len(), enc_addr(c.address), enc_uint(c.value));
    lemma_addr_unique(b, pos + h.len(), a.address, c.address);
    lemma_head_unique(
        b,
        pos + h.len() + enc_addr(a.address).len(),
        MAJOR_UINT,
        a.value,
        MAJOR_UINT,
        c.value,
    );
}

proof fn lemma_txouts_agree(b: Seq<u8>, pos: int, s1: Seq<TxOutModel>, s2: Seq<TxOutModel>, j: int)
    requires
        b.len() <= u64::MAX,
        s1.len() == s2.len(),
        0 <= j <= s1.len(),
        prefix_at(b, pos, enc_txouts(s1)),
        prefix_at(b, pos, enc_txouts(s2)),
    ensures
        s1.subrange(0, j) == s2.subrange(0, j),
    decreases j,
{
    if j > 0 {
        let k = j - 1;
        lemma_txouts_agree(b, pos, s1, s2, k);
        lemma_txouts_prefix(b, pos, s1, k);
        lemma_txouts_prefix(b, pos, s2, k);
        lemma_txout_unique(b, pos + enc_txouts(s1.subrange(0, k)).len(), s1[k], s2[k]);
        assert(s1.subrange(0, j) =~= s1.subrange(0, k).push(s1[k]));
        assert(s2.subrange(0, j) =~= s2.subrange(0, k).push(s2[k]));
    } else {
        assert(s1.subrange(0, 0) =~= s2.subrange(0, 0));
    }
}

/// The canonical encoding of transactions is injective: two transactions
/// with the same bytes have the same inputs and outputs, in the same order.
pub proof fn law_tx_encoding_injective(t1: TxModel, t2: TxModel)
    requires
        enc_tx(t1).len() <= u64::MAX,
        enc_tx(t1) == enc_tx(t2),
    ensures
        t1 == t2,
{
    let b = enc_tx(t1);
    let h2 = head(MAJOR_ARRAY, 2);
    let hin1 = head(MAJOR_ARRAY, t1.inputs.len() as u64);
    let hin2 = head(MAJOR_ARRAY, t2.inputs.len() as u64);
    let hout1 = head(MAJOR_ARRAY, t1.outputs.len() as u64);
    let hout2 = head(MAJOR_ARRAY, t2.outputs.len() as u64);
    let ins1 = hin1 + enc_txins(t1.inputs);
    let ins2 = hin2 + enc_txins(t2.inputs);
    let outs1 = hout1 + enc_txouts(t1.outputs);
    let outs2 = hout2 + enc_txouts(t2.outputs);
    assert(prefix_at(b, 0, b)) by {
        assert(b.subrange(0, b.len() as int) =~= b);
    }
    lemma_prefix_concat(b, 0, h2, ins1 + outs1);
    lemma_prefix_concat(b, 0, h2, ins2 + outs2);
    lemma_prefix_concat(b, h2.len() as int, ins1, outs1);
    lemma_prefix_concat(b, h2.len() as int, ins2, outs2);
    lemma_prefix_concat(b, h2.len() as int, hin1, enc_txins(t1.inputs));
    lemma_prefix_concat(b, h2.len() as int, hin2, enc_txins(t2.inputs));
    lemma_txins_len(t1.inputs);
    lemma_txins_len(t2.inputs);
    lemma_head_unique(
        b,
        h2.len() as int,
        MAJOR_ARRAY,
        t1.inputs.len() as u64,
        MAJOR_ARRAY,
        t2.inputs.len() as u64,
    );
    lemma_txins_agree(b, (h2.len() + hin1.len()) as int, t1.inputs, t2.inputs, t1.inputs.len() as int);
    assert(t1.inputs.subrange(0, t1.inputs.len() as int) =~= t1.inputs);
    assert(t2.inputs.subrange(0, t2.inputs.len() as int) =~= t2.inputs);
    let q = h2.len() + ins1.len();
    lemma_prefix_concat(b, q as int, hout1, enc_txouts(t1.outputs));
    lemma_prefix_concat(b, q as int, hout2, enc_txouts(t2.outputs));
    lemma_txouts_len(t1.outputs);
    lemma_txouts_len(t2.outputs);
    lemma_head_unique(
        b,
        q as int,
        MAJOR_ARRAY,
        t1.outputs.len() as u64,
        MAJOR_ARRAY,
        t2.outputs.len() as u64,
    );
    lemma_txouts_agree(b, (q + hout1.len()) as int, t1.outputs, t2.outputs, t1.outputs.len() as int);
    assert(t1.outputs.subrange(0, t1.outputs.len() as int) =~= t1.outputs);
    assert(t2.outputs.subrange(0, t2.outputs.len() as int) =~= t2.outputs);
}

/// Order is part of the signed payload: swapping two different outputs of a
/// transaction changes its canonical encoding, which is what the hash is
/// taken over.
pub proof fn law_swap_outputs_changes_encoding(t: TxModel, i: int, j: int)
    requires
        0 <= i < j < t.outputs.len(),
        t.outputs[i] != t.outputs[j],
        enc_tx(t).len() <= u64::MAX,
    ensures
        enc_tx(t) != enc_tx(
            TxModel {
                inputs: t.inputs,
                outputs: t.outputs.update(i, t.outputs[j]).update(j, t.outputs[i]),
            },
        ),
{
    let u = TxModel {
        inputs: t.inputs,
        outputs: t.outputs.update(i, t.outputs[j]).update(j, t.outputs[i]),
    };
    if enc_tx(t) == enc_tx(u) {
        law_tx_encoding_injective(t, u);
        assert(u.outputs[i] == t.outputs[j]);
    }
}

/// Order is part of the signed payload: swapping two different inputs of a
/// transaction changes its canonical encoding, which is what the hash is
/// taken over.
pub proof fn law_swap_inputs_changes_encoding(t: TxModel, i: int, j: int)
    requires
        0 <= i < j < t.inputs.len(),
        t.inputs[i] != t.inputs[j],
        enc_tx(t).len() <= u64::MAX,
    ensures
        enc_tx(t) != enc_tx(
            TxModel {
                inputs: t.inputs.update(i, t.inputs[j]).update(j, t.inputs[i]),
                outputs: t.outputs,
            },
        ),
{
    let u = TxModel {
        inputs: t.inputs.update(i, t.inputs[j]).update(j, t.inputs[i]),
        outputs: t.outputs,
    };
    if enc_tx(t) == enc_tx(u) {
        law_tx_encoding_injective(t, u);
        assert(u.inputs[i] == t.inputs[j]);
    }
}

/// The canonical hash is a function of the transaction: two hashes of one
/// unchanged transaction are the same.
pub proof fn law_tx_hash_deterministic(t: TxModel, h1: Seq<u8>, h2: Seq<u8>)
    requires
        h1 == tx_hash(t),
        h2 == tx_hash(t),
    ensures
        h1 == h2,
{
}

} // verus!
