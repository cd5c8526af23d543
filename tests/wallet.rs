use wallet_crypto::address::{AddrType, Attributes, Era, ExtendedAddr, SpendingData};
use wallet_crypto::cbor::{push_bytes, push_uint, read_bytes, read_head, read_uint};
use wallet_crypto::crc32::crc32;
use wallet_crypto::error::Error;
use wallet_crypto::hdpayload::{decode_path, encode_path, HDAddressPayload, HDKey, Path};
use wallet_crypto::hdwallet::{Seed, Signature, XPrv, XPub};
use wallet_crypto::tx::{Coin, Tx, TxId, TxIn, TxInWitness, TxOut, MAX_COIN};

fn root(fill: u8) -> XPrv {
    let seed = Seed::from_slice(&[fill; 32]).unwrap();
    XPrv::generate_from_seed(&seed)
}

fn address_of(xpub: &XPub, payload: Option<HDAddressPayload>) -> ExtendedAddr {
    ExtendedAddr::new(
        AddrType::ATPubKey,
        SpendingData::PubKeyASD(xpub.clone()),
        Attributes { derivation_path: payload, era: Era::Bootstrap },
    )
}

fn uint_bytes(n: u64) -> Vec<u8> {
    let mut out = Vec::new();
    push_uint(&mut out, n);
    out
}

#[test]
fn uint_headers_are_shortest() {
    assert_eq!(uint_bytes(0), vec![0x00]);
    assert_eq!(uint_bytes(23), vec![0x17]);
    assert_eq!(uint_bytes(24), vec![0x18, 0x18]);
    assert_eq!(uint_bytes(255), vec![0x18, 0xff]);
    assert_eq!(uint_bytes(256), vec![0x19, 0x01, 0x00]);
    assert_eq!(uint_bytes(65536), vec![0x1a, 0x00, 0x01, 0x00, 0x00]);
    assert_eq!(
        uint_bytes(1u64 << 32),
        vec![0x1b, 0x00, 0x00, 0x00, 0x01, 0x00, 0x00, 0x00, 0x00]
    );
    assert_eq!(
        uint_bytes(u64::MAX),
        vec![0x1b, 0xff, 0xff, 0xff, 0xff, 0xff, 0xff, 0xff, 0xff]
    );
}

#[test]
fn uint_round_trip_and_non_canonical_rejected() {
    for n in [0u64, 1, 23, 24, 255, 256, 65535, 65536, 1 << 32, u64::MAX] {
        let b = uint_bytes(n);
        assert_eq!(read_uint(&b, 0), Some((n, b.len())));
    }
    assert_eq!(read_head(&[0x18, 0x05], 0), None);
    assert_eq!(read_head(&[0x19, 0x00, 0x10], 0), None);
    assert_eq!(read_head(&[0x1c], 0), None);
    assert_eq!(read_head(&[0x19, 0x01], 0), None);
    assert_eq!(read_head(&[0x82], 0), Some((4, 2, 1)));
}

#[test]
fn bytes_round_trip() {
    let data: Vec<u8> = (0..40u8).collect();
    let mut out = Vec::new();
    push_bytes(&mut out, &data);
    assert_eq!(&out[..2], &[0x58, 40]);
    let (back, end) = read_bytes(&out, 0).unwrap();
    assert_eq!(back, data);
    assert_eq!(end, out.len());
    assert!(read_bytes(&out[..out.len() - 1], 0).is_none());
}

#[test]
fn crc32_check_value() {
    assert_eq!(crc32(b"123456789"), 0xCBF4_3926);
    assert_eq!(crc32(b""), 0);
}

#[test]
fn fixed_sizes_are_enforced() {
    assert!(matches!(Seed::from_slice(&[0u8; 31]), Err(Error::MalformedKey)));
    assert!(matches!(XPrv::from_slice(&[0u8; 95]), Err(Error::MalformedKey)));
    assert!(matches!(XPub::from_slice(&[0u8; 65]), Err(Error::MalformedKey)));
    assert!(matches!(Signature::<Vec<u8>>::from_slice(&[0u8; 63]), Err(Error::MalformedKey)));
    assert!(matches!(TxId::from_slice(&[0u8; 33]), Err(Error::MalformedKey)));
    assert!(HDKey::from_slice(&[0u8; 31]).is_none());
    let mut big_scalar = [0u8; 96];
    big_scalar[31] = 0x80;
    assert!(matches!(XPrv::from_slice(&big_scalar), Err(Error::MalformedKey)));
    big_scalar[31] = 0x7f;
    assert!(XPrv::from_slice(&big_scalar).is_ok());
}

#[test]
fn derived_scalars_stay_reduced() {
    let mut k = root(2);
    for i in 0..20u32 {
        k = k.derive(i ^ 0x8000_0000);
        assert!(k.as_slice()[31] < 0x20);
    }
    let pk = k.public();
    assert_ne!(&pk.as_slice()[..32], &k.as_slice()[..32]);
}

#[test]
fn root_generation_is_deterministic() {
    let a = root(7);
    let b = root(7);
    assert_eq!(a.as_slice(), b.as_slice());
    assert_ne!(a.as_slice(), root(8).as_slice());
    let k = a.as_slice();
    assert_eq!(k.len(), 96);
    assert_eq!(k[0] & 7, 0);
    assert_eq!(k[31] & 0xe0, 0x40);
}

#[test]
fn derivation_agreement() {
    let parent = root(0);
    for i in [0u32, 1, 42, 0x7fff_ffff] {
        let via_private = parent.derive(i).public();
        let via_public = parent.public().derive(i).unwrap();
        assert_eq!(via_private.as_slice(), via_public.as_slice());
    }
    let grandchild = parent.derive(3).derive(5).public();
    let via_public = parent.public().derive(3).unwrap().derive(5).unwrap();
    assert_eq!(grandchild.as_slice(), via_public.as_slice());
}

#[test]
fn hardened_public_derivation_fails() {
    let xpub = root(1).public();
    for i in [0x8000_0000u32, 0x8000_0001, 0xffff_ffff] {
        assert!(matches!(xpub.derive(i), Err(Error::InvalidDerivation)));
    }
    let hardened = root(1).derive(0x8000_0000);
    assert_ne!(hardened.as_slice(), root(1).derive(0).as_slice());
}

#[test]
fn signature_correctness() {
    let k = root(3).derive(9);
    let msg = b"hello wallet".to_vec();
    let sig: Signature<Vec<u8>> = k.sign(&msg);
    assert!(k.public().verify(&msg, &sig));
    let mut bad_msg = msg.clone();
    bad_msg[0] ^= 1;
    assert!(!k.public().verify(&bad_msg, &sig));
    let mut bad_sig = sig.as_slice().to_vec();
    bad_sig[10] ^= 1;
    let bad_sig = Signature::<Vec<u8>>::from_slice(&bad_sig).unwrap();
    assert!(!k.public().verify(&msg, &bad_sig));
    let again: Signature<Vec<u8>> = k.sign(&msg);
    assert_eq!(again.as_slice(), sig.as_slice());
}

#[test]
fn scenario_zero_seed_sign_abc() {
    let seed = Seed::from_slice(&[0u8; 32]).unwrap();
    let root_key = XPrv::generate_from_seed(&seed);
    let child = root_key.derive(0);
    let child_pub = child.public();
    let sig: Signature<Vec<u8>> = child.sign(b"abc");
    assert!(child_pub.verify(b"abc", &sig));
    assert!(!root_key.public().verify(b"abc", &sig));
}

#[test]
fn path_encoding_round_trip() {
    let path = vec![0u32, 1, 24, 0x8000_0000, u32::MAX];
    let b = encode_path(&path);
    assert_eq!(b[0], 0x85);
    assert_eq!(decode_path(&b), Some(path));
    assert_eq!(decode_path(&encode_path(&[])), Some(vec![]));
    let mut trailing = b.clone();
    trailing.push(0);
    assert_eq!(decode_path(&trailing), None);
    assert_eq!(decode_path(&[0x81, 0x1b, 0, 0, 0, 1, 0, 0, 0, 0]), None);
}

#[test]
fn payload_round_trip_and_secrecy() {
    let xpub_a = root(10).public();
    let xpub_b = root(11).public();
    let key_a = HDKey::new(&xpub_a);
    let key_b = HDKey::new(&xpub_b);
    assert_eq!(HDKey::new(&xpub_a).as_slice(), key_a.as_slice());
    assert_ne!(key_a.as_slice(), key_b.as_slice());
    assert_ne!(key_a.as_slice(), &xpub_a.as_slice()[..32]);
    let path = Path::new(vec![0x8000_0000, 2, 7]);
    let sealed = key_b.encrypt_path(&path);
    assert_eq!(sealed.len(), 8 + 16);
    let opened = key_b.decrypt_path(&sealed).unwrap();
    assert_eq!(opened.as_slice(), path.as_slice());
    assert!(key_a.decrypt_path(&sealed).is_none());
    assert!(key_b.decrypt_path(&HDAddressPayload::from_bytes(&[0u8; 15])).is_none());
    let mut tampered = sealed.as_slice().to_vec();
    tampered[0] ^= 1;
    assert!(key_b.decrypt_path(&HDAddressPayload::from_vec(tampered)).is_none());
}

#[test]
fn address_round_trip() {
    let xpub = root(4).public();
    let key = HDKey::new(&xpub);
    let payload = key.encrypt_path(&Path::new(vec![1, 2]));
    for p in [None, Some(payload)] {
        let addr = address_of(&xpub, p);
        let bytes = addr.to_bytes();
        let back = ExtendedAddr::from_bytes(&bytes).unwrap();
        assert_eq!(back.to_bytes(), bytes);
        assert_eq!(back.addr_type, AddrType::ATPubKey);
        let SpendingData::PubKeyASD(k) = &back.spending_data;
        assert_eq!(k.as_slice(), xpub.as_slice());
        assert_eq!(
            back.payload().map(|h| h.as_slice().to_vec()),
            addr.payload().map(|h| h.as_slice().to_vec())
        );
    }
}

#[test]
fn address_errors() {
    let addr = address_of(&root(5).public(), None);
    let mut bytes = addr.to_bytes();
    let last = bytes.len() - 1;
    bytes[last] ^= 1;
    assert!(matches!(ExtendedAddr::from_bytes(&bytes), Err(Error::ChecksumMismatch)));
    let good = addr.to_bytes();
    assert!(matches!(
        ExtendedAddr::from_bytes(&good[..good.len() - 1]),
        Err(Error::MalformedAddress)
    ));
    assert!(matches!(ExtendedAddr::from_bytes(&[]), Err(Error::MalformedAddress)));
    let mut extra = good.clone();
    extra.push(0);
    assert!(matches!(ExtendedAddr::from_bytes(&extra), Err(Error::MalformedAddress)));
}

#[test]
fn address_payload_extraction() {
    let xpub = root(6).public();
    assert!(address_of(&xpub, None).payload().is_none());
    let p = HDAddressPayload::from_bytes(&[1, 2, 3]);
    let a = address_of(&xpub, Some(p));
    assert_eq!(a.payload().unwrap().as_slice(), &[1, 2, 3]);
}

#[test]
fn coin_bound() {
    assert_eq!(Coin::new(MAX_COIN).unwrap().value(), 45_000_000_000_000_000);
    assert!(matches!(Coin::new(MAX_COIN + 1), Err(Error::CoinTooLarge)));
    assert_eq!(Coin::new(0).unwrap().value(), 0);
}

fn txin(fill: u8, index: u32) -> TxIn {
    TxIn::new(TxId::from_slice(&[fill; 32]).unwrap(), index)
}

fn txout(xpub: &XPub, value: u64) -> TxOut {
    TxOut::new(address_of(xpub, None), Coin::new(value).unwrap())
}

#[test]
fn empty_transaction() {
    let tx = Tx::new();
    assert_eq!(tx.to_bytes(), vec![0x82, 0x80, 0x80]);
    let back = Tx::from_bytes(&[0x82, 0x80, 0x80]).unwrap();
    assert!(back.inputs().is_empty() && back.outputs().is_empty());
}

#[test]
fn transaction_round_trip() {
    let xpub = root(12).public();
    let mut tx = Tx::new();
    tx.add_input(txin(1, 0));
    tx.add_input(txin(2, 70000));
    tx.add_output(txout(&xpub, 1000));
    tx.add_output(txout(&xpub, MAX_COIN));
    let bytes = tx.to_bytes();
    let back = Tx::from_bytes(&bytes).unwrap();
    assert_eq!(back.to_bytes(), bytes);
    assert_eq!(back.inputs()[1].index, 70000);
    assert_eq!(back.outputs()[0].value.value(), 1000);
    assert_eq!(back.id(), tx.id());
    assert!(matches!(Tx::from_bytes(&bytes[..bytes.len() - 1]), Err(Error::MalformedTransaction)));

    let i = txin(9, 3);
    let ib = i.to_bytes();
    assert_eq!(TxIn::from_bytes(&ib).unwrap().to_bytes(), ib);
    let o = txout(&xpub, 5);
    let ob = o.to_bytes();
    assert_eq!(TxOut::from_bytes(&ob).unwrap().to_bytes(), ob);
    assert!(matches!(TxIn::from_bytes(&ob), Err(Error::MalformedTransaction)));
}

#[test]
fn hash_is_deterministic_and_order_sensitive() {
    let xpub = root(13).public();
    let mut a = Tx::new();
    a.add_input(txin(1, 0));
    a.add_input(txin(2, 0));
    a.add_output(txout(&xpub, 1));
    a.add_output(txout(&xpub, 2));
    assert_eq!(a.id(), a.id());
    assert_eq!(a.id().len(), 32);
    let mut b = Tx::new();
    b.add_input(txin(2, 0));
    b.add_input(txin(1, 0));
    b.add_output(txout(&xpub, 1));
    b.add_output(txout(&xpub, 2));
    assert_ne!(a.id(), b.id());
    let mut c = Tx::new();
    c.add_input(txin(1, 0));
    c.add_input(txin(2, 0));
    c.add_output(txout(&xpub, 2));
    c.add_output(txout(&xpub, 1));
    assert_ne!(a.id(), c.id());
}

#[test]
fn scenario_sign_and_verify_transaction() {
    let key = root(20).derive(0);
    let mut tx = Tx::new();
    tx.add_input(TxIn::new(TxId::from_slice(&[0u8; 32]).unwrap(), 0));
    tx.add_output(txout(&key.public(), 1000));
    let witness = TxInWitness::new(&key, &tx);
    assert!(witness.verify_tx(&tx));
    let TxInWitness::PkWitness(p, _) = &witness;
    assert_eq!(p.as_slice(), key.public().as_slice());

    let mut changed = Tx::new();
    changed.add_input(TxIn::new(TxId::from_slice(&[0u8; 32]).unwrap(), 0));
    changed.add_output(txout(&key.public(), 1001));
    assert!(!witness.verify_tx(&changed));
}

#[test]
fn witness_is_domain_separated() {
    let key = root(21);
    let mut tx = Tx::new();
    tx.add_input(txin(4, 1));
    let witness = TxInWitness::new(&key, &tx);
    let TxInWitness::PkWitness(_, sig) = &witness;
    let plain = Signature::<Vec<u8>>::from_slice(sig.as_slice()).unwrap();
    assert!(!key.public().verify(&tx.id(), &plain));
}
