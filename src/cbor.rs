//! The canonical binary encoding: a deterministic subset of CBOR with
//! unsigned integers, byte strings, arrays and tags, each header in its
//! shortest form. Decoding rejects any other form.
use vstd::prelude::*;

verus! {

pub const MAJOR_UINT: u8 = 0;
pub const MAJOR_BYTES: u8 = 2;
pub const MAJOR_ARRAY: u8 = 4;
pub const MAJOR_TAG: u8 = 6;

/// The low five bits of a header's first byte for the argument `n`.
pub open spec fn head_info(n: u64) -> u8 {
    if n < 24 {
        n as u8
    } else if n < 0x100 {
        24
    } else if n < 0x1_0000 {
        25
    } else if n < 0x1_0000_0000 {
        26
    } else {
        27
    }
}

/// The big-endian bytes that follow the first byte of the header of `n`.
pub open spec fn head_tail(n: u64) -> Seq<u8> {
    if n < 24 {
        seq![]
    } else if n < 0x100 {
        seq![n as u8]
    } else if n < 0x1_0000 {
        seq![(n >> 8u64) as u8, n as u8]
    } else if n < 0x1_0000_0000 {
        seq![(n >> 24u64) as u8, (n >> 16u64) as u8, (n >> 8u64) as u8, n as u8]
    } else {
        seq![
            (n >> 56u64) as u8, (n >> 48u64) as u8, (n >> 40u64) as u8, (n >> 32u64) as u8,
            (n >> 24u64) as u8, (n >> 16u64) as u8, (n >> 8u64) as u8, n as u8,
        ]
    }
}

/// The shortest header of major type `m` with argument `n`.
pub open spec fn head(m: u8, n: u64) -> Seq<u8> {
    seq![(m * 32 + head_info(n)) as u8] + head_tail(n)
}

/// An unsigned integer.
pub open spec fn enc_uint(n: u64) -> Seq<u8> {
    head(MAJOR_UINT, n)
}

/// A byte string: its length, then its bytes.
pub open spec fn enc_bytes(b: Seq<u8>) -> Seq<u8> {
    head(MAJOR_BYTES, b.len() as u64) + b
}

/// `s` occurs in `b` at position `pos`.
pub open spec fn prefix_at(b: Seq<u8>, pos: int, s: Seq<u8>) -> bool {
    0 <= pos && pos + s.len() <= b.len() && b.subrange(pos, pos + s.len()) == s
}

pub proof fn lemma_prefix_concat(b: Seq<u8>, pos: int, s1: Seq<u8>, s2: Seq<u8>)
    ensures
        prefix_at(b, pos, s1 + s2) <==> (prefix_at(b, pos, s1) && prefix_at(b, pos + s1.len(), s2)),
{
    if prefix_at(b, pos, s1 + s2) {
        assert(b.subrange(pos, pos + s1.len()) =~= (s1 + s2).subrange(0, s1.len() as int));
        assert((s1 + s2).subrange(0, s1.len() as int) =~= s1);
        assert(b.subrange(pos + s1.len(), pos + s1.len() + s2.len()) =~= (s1 + s2).subrange(
            s1.len() as int,
            (s1.len() + s2.len()) as int,
        ));
        assert((s1 + s2).subrange(s1.len() as int, (s1.len() + s2.len()) as int) =~= s2);
    }
    if prefix_at(b, pos, s1) && prefix_at(b, pos + s1.len(), s2) {
        assert(b.subrange(pos, pos + (s1 + s2).len()) =~= s1 + s2) by {
            assert forall|i: int| 0 <= i < (s1 + s2).len() implies #[trigger] b.subrange(
                pos,
                pos + (s1 + s2).len(),
            )[i] == (s1 + s2)[i] by {
                if i < s1.len() {
                    assert(b.subrange(pos, pos + s1.len())[i] == s1[i]);
                } else {
                    assert(b.subrange(pos + s1.len(), pos + s1.len() + s2.len())[i - s1.len()]
                        == s2[i - s1.len()]);
                }
            }
        }
    }
}

proof fn lemma_be2(c0: u8, c1: u8, n: u64)
    by (bit_vector)
    ensures
        (((((c0 as u64) << 8u64) | (c1 as u64)) >> 8u64) as u8) == c0,
        ((((c0 as u64) << 8u64) | (c1 as u64)) as u8) == c1,
        (((c0 as u64) << 8u64) | (c1 as u64)) < 0x1_0000,
        (n < 0x1_0000 && c0 == ((n >> 8u64) as u8) && c1 == (n as u8)) ==> (((c0 as u64) << 8u64)
            | (c1 as u64)) == n,
{
}

proof fn lemma_be4(c0: u8, c1: u8, c2: u8, c3: u8, n: u64)
    by (bit_vector)
    ensures
        ({
            let v = ((c0 as u64) << 24u64) | ((c1 as u64) << 16u64) | ((c2 as u64) << 8u64) | (
            c3 as u64);
            &&& ((v >> 24u64) as u8) == c0
            &&& ((v >> 16u64) as u8) == c1
            &&& ((v >> 8u64) as u8) == c2
            &&& (v as u8) == c3
            &&& v < 0x1_0000_0000
        }),
        (n < 0x1_0000_0000 && c0 == ((n >> 24u64) as u8) && c1 == ((n >> 16u64) as u8) && c2 == ((
        n >> 8u64) as u8) && c3 == (n as u8)) ==> ((c0 as u64) << 24u64) | ((c1 as u64) << 16u64)
            | ((c2 as u64) << 8u64) | (c3 as u64) == n,
{
}

proof fn lemma_be8(c0: u8, c1: u8, c2: u8, c3: u8, c4: u8, c5: u8, c6: u8, c7: u8, n: u64)
    by (bit_vector)
    ensures
        ({
            let v = ((c0 as u64) << 56u64) | ((c1 as u64) << 48u64) | ((c2 as u64) << 40u64) | ((
            c3 as u64) << 32u64) | ((c4 as u64) << 24u64) | ((c5 as u64) << 16u64) | ((c6 as u64)
                << 8u64) | (c7 as u64);
            &&& ((v >> 56u64) as u8) == c0
            &&& ((v >> 48u64) as u8) == c1
            &&& ((v >> 40u64) as u8) == c2
            &&& ((v >> 32u64) as u8) == c3
            &&& ((v >> 24u64) as u8) == c4
            &&& ((v >> 16u64) as u8) == c5
            &&& ((v >> 8u64) as u8) == c6
            &&& (v as u8) == c7
        }),
        (c0 == ((n >> 56u64) as u8) && c1 == ((n >> 48u64) as u8) && c2 == ((n >> 40u64) as u8)
            && c3 == ((n >> 32u64) as u8) && c4 == ((n >> 24u64) as u8) && c5 == ((n >> 16u64)
            as u8) && c6 == ((n >> 8u64) as u8) && c7 == (n as u8)) ==> ((c0 as u64) << 56u64) | ((
        c1 as u64) << 48u64) | ((c2 as u64) << 40u64) | ((c3 as u64) << 32u64) | ((c4 as u64)
            << 24u64) | ((c5 as u64) << 16u64) | ((c6 as u64) << 8u64) | (c7 as u64) == n,
{
}

proof fn lemma_be1(c0: u8, n: u64)
    by (bit_vector)
    ensures
        ((c0 as u64) as u8) == c0,
        (c0 as u64) < 0x100,
        (n < 0x100 && c0 == (n as u8)) ==> (c0 as u64) == n,
{
}

/// Appends the header of major type `m` with argument `n`.
pub fn push_head(out: &mut Vec<u8>, m: u8, n: u64)
    requires
        m < 8,
    ensures
        final(out)@ == old(out)@ + head(m, n),
{
    let mb: u8 = m * 32;
    if n < 24 {
        out.push(mb + n as u8);
    } else if n < 0x100 {
        out.push(mb + 24);
        out.push(n as u8);
    } else if n < 0x1_0000 {
        out.push(mb + 25);
        out.push((n >> 8) as u8);
        out.push(n as u8);
    } else if n < 0x1_0000_0000 {
        out.push(mb + 26);
        out.push((n >> 24) as u8);
        out.push((n >> 16) as u8);
        out.push((n >> 8) as u8);
        out.push(n as u8);
    } else {
        out.push(mb + 27);
        out.push((n >> 56) as u8);
        out.push((n >> 48) as u8);
        out.push((n >> 40) as u8);
        out.push((n >> 32) as u8);
        out.push((n >> 24) as u8);
        out.push((n >> 16) as u8);
        out.push((n >> 8) as u8);
        out.push(n as u8);
    }
    assert(final(out)@ =~= old(out)@ + head(m, n));
}

/// What a header occurring at `pos` says of the bytes there.
proof fn lemma_head_bytes(b: Seq<u8>, pos: int, m: u8, n: u64)
    requires
        m < 8,
        prefix_at(b, pos, head(m, n)),
    ensures
        pos < b.len(),
        b[pos] / 32 == m,
        b[pos] % 32 == head_info(n),
        head(m, n).len() == 1 + head_tail(n).len(),
        forall|j: int| 0 <= j < head_tail(n).len() ==> b[pos + 1 + j] == #[trigger] head_tail(n)[j],
{
    let h = head(m, n);
    assert(h[0] == b.subrange(pos, pos + h.len())[0]);
    assert forall|j: int| 0 <= j < head_tail(n).len() implies b[pos + 1 + j] == #[trigger] head_tail(
        n,
    )[j] by {
        assert(h[1 + j] == b.subrange(pos, pos + h.len())[1 + j]);
    }
}

/// Two headers cannot start at the same position unless they are equal.
pub proof fn lemma_head_unique(b: Seq<u8>, pos: int, m1: u8, n1: u64, m2: u8, n2: u64)
    requires
        m1 < 8,
        m2 < 8,
        prefix_at(b, pos, head(m1, n1)),
        prefix_at(b, pos, head(m2, n2)),
    ensures
        m1 == m2,
        n1 == n2,
{
    lemma_head_bytes(b, pos, m1, n1);
    lemma_head_bytes(b, pos, m2, n2);
    let t1 = head_tail(n1);
    let t2 = head_tail(n2);
    if n1 < 24 || n2 < 24 {
    } else if n1 < 0x100 {
        assert(b[pos + 1] == t1[0] && b[pos + 1] == t2[0]);
        lemma_be1(b[pos + 1], n1);
        lemma_be1(b[pos + 1], n2);
    } else if n1 < 0x1_0000 {
        assert(b[pos + 1] == t1[0] && b[pos + 1] == t2[0]);
        assert(b[pos + 2] == t1[1] && b[pos + 2] == t2[1]);
        lemma_be2(b[pos + 1], b[pos + 2], n1);
        lemma_be2(b[pos + 1], b[pos + 2], n2);
    } else if n1 < 0x1_0000_0000 {
        assert(b[pos + 1] == t1[0] && b[pos + 1] == t2[0]);
        assert(b[pos + 2] == t1[1] && b[pos + 2] == t2[1]);
        assert(b[pos + 3] == t1[2] && b[pos + 3] == t2[2]);
        assert(b[pos + 4] == t1[3] && b[pos + 4] == t2[3]);
        lemma_be4(b[pos + 1], b[pos + 2], b[pos + 3], b[pos + 4], n1);
        lemma_be4(b[pos + 1], b[pos + 2], b[pos + 3], b[pos + 4], n2);
    } else {
        assert(b[pos + 1] == t1[0] && b[pos + 1] == t2[0]);
        assert(b[pos + 2] == t1[1] && b[pos + 2] == t2[1]);
        assert(b[pos + 3] == t1[2] && b[pos + 3] == t2[2]);
        assert(b[pos + 4] == t1[3] && b[pos + 4] == t2[3]);
        assert(b[pos + 5] == t1[4] && b[pos + 5] == t2[4]);
        assert(b[pos + 6] == t1[5] && b[pos + 6] == t2[5]);
        assert(b[pos + 7] == t1[6] && b[pos + 7] == t2[6]);
        assert(b[pos + 8] == t1[7] && b[pos + 8] == t2[7]);
        lemma_be8(b[pos + 1], b[pos + 2], b[pos + 3], b[pos + 4], b[pos + 5], b[pos + 6], b[pos + 7], b[pos + 8], n1);
        lemma_be8(b[pos + 1], b[pos + 2], b[pos + 3], b[pos + 4], b[pos + 5], b[pos + 6], b[pos + 7], b[pos + 8], n2);
    }
}

/// Two byte strings cannot start at the same position unless they are
/// equal.
pub proof fn lemma_bytes_unique(b: Seq<u8>, pos: int, s1: Seq<u8>, s2: Seq<u8>)
    requires
        b.len() <= u64::MAX,
        prefix_at(b, pos, enc_bytes(s1)),
        prefix_at(b, pos, enc_bytes(s2)),
    ensures
        s1 == s2,
{
    lemma_prefix_concat(b, pos, head(MAJOR_BYTES, s1.len() as u64), s1);
    lemma_prefix_concat(b, pos, head(MAJOR_BYTES, s2.len() as u64), s2);
    lemma_head_unique(b, pos, MAJOR_BYTES, s1.len() as u64, MAJOR_BYTES, s2.len() as u64);
    assert(s1.len() == s2.len());
}

/// Reads the header at `pos`: its major type, its argument and the position
/// after it. Only the shortest form of a header is accepted.
pub fn read_head(b: &[u8], pos: usize) -> (r: Option<(u8, u64, usize)>)
    ensures
        r matches Some((m, n, p)) ==> m < 8 && p == pos + head(m, n).len() && prefix_at(
            b@,
            pos as int,
            head(m, n),
        ),
        forall|m: u8, n: u64|
            m < 8 && #[trigger] prefix_at(b@, pos as int, head(m, n)) ==> r == Some(
                (m, n, (pos + head(m, n).len()) as usize),
            ),
{
    let r = if pos >= b.len() {
        None
    } else {
        let first = b[pos];
        let m = first / 32;
        let info = first % 32;
        if info < 24 {
            let n = info as u64;
            proof {
                assert(b@.subrange(pos as int, pos + 1) =~= head(m, n));
            }
            Some((m, n, pos + 1))
        } else if info == 24 {
            if b.len() - pos < 2 {
                None
            } else {
                let c0 = b[pos + 1];
                let n = c0 as u64;
                proof {
                    lemma_be1(c0, n);
                }
                if n < 24 {
                    None
                } else {
                    proof {
                        assert(b@.subrange(pos as int, pos + 2) =~= head(m, n));
                    }
                    Some((m, n, pos + 2))
                }
            }
        } else if info == 25 {
            if b.len() - pos < 3 {
                None
            } else {
                let c0 = b[pos + 1];
                let c1 = b[pos + 2];
                let n = ((c0 as u64) << 8) | (c1 as u64);
                proof {
                    lemma_be2(c0, c1, n);
                }
                if n < 0x100 {
                    None
                } else {
                    proof {
                        assert(b@.subrange(pos as int, pos + 3) =~= head(m, n));
                    }
                    Some((m, n, pos + 3))
                }
            }
        } else if info == 26 {
            if b.len() - pos < 5 {
                None
            } else {
                let c0 = b[pos + 1];
                let c1 = b[pos + 2];
                let c2 = b[pos + 3];
                let c3 = b[pos + 4];
                let n = ((c0 as u64) << 24) | ((c1 as u64) << 16) | ((c2 as u64) << 8) | (
                c3 as u64);
                proof {
                    lemma_be4(c0, c1, c2, c3, n);
                }
                if n < 0x1_0000 {
                    None
                } else {
                    proof {
                        assert(b@.subrange(pos as int, pos + 5) =~= head(m, n));
                    }
                    Some((m, n, pos + 5))
                }
            }
        } else if info == 27 {
            if b.len() - pos < 9 {
                None
            } else {
                let c0 = b[pos + 1];
                let c1 = b[pos + 2];
                let c2 = b[pos + 3];
                let c3 = b[pos + 4];
                let c4 = b[pos + 5];
                let c5 = b[pos + 6];
                let c6 = b[pos + 7];
                let c7 = b[pos + 8];
                let n = ((c0 as u64) << 56) | ((c1 as u64) << 48) | ((c2 as u64) << 40) | ((
                c3 as u64) << 32) | ((c4 as u64) << 24) | ((c5 as u64) << 16) | ((c6 as u64)
                    << 8) | (c7 as u64);
                proof {
                    lemma_be8(c0, c1, c2, c3, c4, c5, c6, c7, n);
                }
                if n < 0x1_0000_0000 {
                    None
                } else {
                    proof {
                        assert(b@.subrange(pos as int, pos + 9) =~= head(m, n));
                    }
                    Some((m, n, pos + 9))
                }
            }
        } else {
            None
        }
    };
    proof {
        assert forall|m: u8, n: u64|
            m < 8 && #[trigger] prefix_at(b@, pos as int, head(m, n)) implies r == Some(
            (m, n, (pos + head(m, n).len()) as usize),
        ) by {
            lemma_head_bytes(b@, pos as int, m, n);
            let t = head_tail(n);
            if n < 24 {
            } else if n < 0x100 {
                assert(b@[pos + 1] == t[0]);
                lemma_be1(b@[pos + 1], n);
            } else if n < 0x1_0000 {
                assert(b@[pos + 1] == t[0]);
                assert(b@[pos + 2] == t[1]);
                lemma_be2(b@[pos + 1], b@[pos + 2], n);
            } else if n < 0x1_0000_0000 {
                assert(b@[pos + 1] == t[0]);
                assert(b@[pos + 2] == t[1]);
                assert(b@[pos + 3] == t[2]);
                assert(b@[pos + 4] == t[3]);
                lemma_be4(b@[pos + 1], b@[pos + 2], b@[pos + 3], b@[pos + 4], n);
            } else {
                assert(b@[pos + 1] == t[0]);
                assert(b@[pos + 2] == t[1]);
                assert(b@[pos + 3] == t[2]);
                assert(b@[pos + 4] == t[3]);
                assert(b@[pos + 5] == t[4]);
                assert(b@[pos + 6] == t[5]);
                assert(b@[pos + 7] == t[6]);
                assert(b@[pos + 8] == t[7]);
                lemma_be8(
                    b@[pos + 1],
                    b@[pos + 2],
                    b@[pos + 3],
                    b@[pos + 4],
                    b@[pos + 5],
                    b@[pos + 6],
                    b@[pos + 7],
                    b@[pos + 8],
                    n,
                );
            }
        }
    }
    r
}

/// Reads a header of major type `m` at `pos`: its argument and the position
/// after it.
pub fn read_head_of(b: &[u8], pos: usize, m: u8) -> (r: Option<(u64, usize)>)
    requires
        m < 8,
    ensures
        r matches Some((n, p)) ==> p == pos + head(m, n).len() && prefix_at(
            b@,
            pos as int,
            head(m, n),
        ),
        forall|n: u64| #[trigger]
            prefix_at(b@, pos as int, head(m, n)) ==> r == Some(
                (n, (pos + head(m, n).len()) as usize),
            ),
{
    match read_head(b, pos) {
        Some((m2, n, p)) => {
            if m2 == m {
                Some((n, p))
            } else {
                proof {
                    assert forall|n2: u64| !#[trigger] prefix_at(b@, pos as int, head(m, n2)) by {}
                }
                None
            }
        },
        None => None,
    }
}

/// Appends an unsigned integer.
pub fn push_uint(out: &mut Vec<u8>, n: u64)
    ensures
        final(out)@ == old(out)@ + enc_uint(n),
{
    push_head(out, MAJOR_UINT, n);
}

/// Reads an unsigned integer at `pos`.
pub fn read_uint(b: &[u8], pos: usize) -> (r: Option<(u64, usize)>)
    ensures
        r matches Some((n, p)) ==> p == pos + enc_uint(n).len() && prefix_at(
            b@,
            pos as int,
            enc_uint(n),
        ),
        forall|n: u64| #[trigger]
            prefix_at(b@, pos as int, enc_uint(n)) ==> r == Some(
                (n, (pos + enc_uint(n).len()) as usize),
            ),
{
    read_head_of(b, pos, MAJOR_UINT)
}

/// Appends a byte string.
pub fn push_bytes(out: &mut Vec<u8>, data: &[u8])
    ensures
        final(out)@ == old(out)@ + enc_bytes(data@),
{
    push_head(out, MAJOR_BYTES, data.len() as u64);
    let ghost start = out@;
    let mut i: usize = 0;
    while i < data.len()
        invariant
            i <= data@.len(),
            out@ == start + data@.subrange(0, i as int),
        decreases data@.len() - i,
    {
        out.push(data[i]);
        i = i + 1;
        assert(out@ =~= start + data@.subrange(0, i as int));
    }
    assert(data@.subrange(0, data@.len() as int) =~= data@);
    assert(out@ =~= old(out)@ + enc_bytes(data@));
}

/// The bytes of `b` from `start` to `end`, in a buffer of their own.
pub fn copy_range(b: &[u8], start: usize, end: usize) -> (r: Vec<u8>)
    requires
        start <= end <= b@.len(),
    ensures
        r@ == b@.subrange(start as int, end as int),
{
    let mut r: Vec<u8> = Vec::new();
    let mut i: usize = start;
    while i < end
        invariant
            start <= i <= end,
            end <= b@.len(),
            r@ == b@.subrange(start as int, i as int),
        decreases end - i,
    {
        r.push(b[i]);
        i = i + 1;
        assert(r@ =~= b@.subrange(start as int, i as int));
    }
    r
}

/// Concatenation of byte sequences in a fresh buffer.
pub fn concat(a: &[u8], b: &[u8]) -> (r: Vec<u8>)
    ensures
        r@ == a@ + b@,
{
    let mut r = copy_range(a, 0, a.len());
    let mut i: usize = 0;
    while i < b.len()
        invariant
            i <= b@.len(),
            r@ == a@ + b@.subrange(0, i as int),
        decreases b@.len() - i,
    {
        r.push(b[i]);
        i = i + 1;
        assert(r@ =~= a@ + b@.subrange(0, i as int));
    }
    assert(b@.subrange(0, b@.len() as int) =~= b@);
    assert(a@.subrange(0, a@.len() as int) =~= a@);
    r
}

/// Reads a byte string at `pos`.
pub fn read_bytes(b: &[u8], pos: usize) -> (r: Option<(Vec<u8>, usize)>)
    ensures
        r matches Some((v, p)) ==> p == pos + enc_bytes(v@).len() && prefix_at(
            b@,
            pos as int,
            enc_bytes(v@),
        ),
        forall|s: Seq<u8>| #[trigger]
            prefix_at(b@, pos as int, enc_bytes(s)) ==> (r matches Some((v, p)) && v@ == s && p
                == pos + enc_bytes(s).len()),
{
    proof {
        assert forall|s: Seq<u8>| #[trigger] prefix_at(b@, pos as int, enc_bytes(s)) implies prefix_at(
            b@,
            pos as int,
            head(MAJOR_BYTES, s.len() as u64),
        ) && prefix_at(b@, pos + head(MAJOR_BYTES, s.len() as u64).len(), s) by {
            lemma_prefix_concat(b@, pos as int, head(MAJOR_BYTES, s.len() as u64), s);
        }
    }
    match read_head_of(b, pos, MAJOR_BYTES) {
        Some((n, p)) => {
            if n > (b.len() - p) as u64 {
                proof {
                    assert forall|s: Seq<u8>| !#[trigger] prefix_at(b@, pos as int, enc_bytes(s)) by {}
                }
                None
            } else {
                let end = p + n as usize;
                let v = copy_range(b, p, end);
                proof {
                    assert(v@.len() as u64 == n);
                    lemma_prefix_concat(b@, pos as int, head(MAJOR_BYTES, n), v@);
                    assert(prefix_at(b@, p as int, v@));
                }
                Some((v, end))
            }
        },
        None => None,
    }
}

} // verus!
