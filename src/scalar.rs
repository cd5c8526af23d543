//! Little-endian 256-bit scalar arithmetic on byte strings.
use vstd::prelude::*;
use crate::primitives::group_order;

verus! {

/// The `i`-th addend taken from `y`: `m * y[i]` below `n`, zero from `n` on.
pub open spec fn addend(y: Seq<u8>, n: nat, m: nat, i: nat) -> nat {
    if i < n {
        (m * y[i as int]) as nat
    } else {
        0
    }
}

/// The carry into byte `i` when adding `x` and `m * y[..n]` byte by byte,
/// least significant first.
pub open spec fn carry_at(x: Seq<u8>, y: Seq<u8>, n: nat, m: nat, i: nat) -> nat
    decreases i,
{
    if i == 0 {
        0
    } else {
        let j = (i - 1) as nat;
        ((x[j as int] + addend(y, n, m, j) + carry_at(x, y, n, m, j)) / 256) as nat
    }
}

/// The 32 little-endian bytes of `x + m * y[..n]` modulo 2^256.
pub open spec fn scalar_add(x: Seq<u8>, y: Seq<u8>, n: nat, m: nat) -> Seq<u8> {
    Seq::new(
        32,
        |i: int| ((x[i] + addend(y, n, m, i as nat) + carry_at(x, y, n, m, i as nat)) % 256) as u8,
    )
}

/// `256^n`.
pub open spec fn pow256(n: nat) -> nat
    decreases n,
{
    if n == 0 {
        1
    } else {
        256 * pow256((n - 1) as nat)
    }
}

/// The number whose little-endian bytes are `s`.
pub open spec fn le_val(s: Seq<u8>) -> nat
    decreases s.len(),
{
    if s.len() == 0 {
        0
    } else {
        (le_val(s.drop_last()) + s.last() * pow256((s.len() - 1) as nat)) as nat
    }
}

/// The sum of the addends below `i`, each at its byte position.
spec fn addend_val(y: Seq<u8>, n: nat, m: nat, i: nat) -> nat
    decreases i,
{
    if i == 0 {
        0
    } else {
        addend_val(y, n, m, (i - 1) as nat) + addend(y, n, m, (i - 1) as nat) * pow256(
            (i - 1) as nat,
        )
    }
}

proof fn lemma_pow256_pos(n: nat)
    ensures
        pow256(n) > 0,
    decreases n,
{
    if n > 0 {
        lemma_pow256_pos((n - 1) as nat);
    }
}

proof fn lemma_le_val_bound(s: Seq<u8>)
    ensures
        le_val(s) < pow256(s.len()),
    decreases s.len(),
{
    if s.len() > 0 {
        let p = pow256((s.len() - 1) as nat);
        let l = s.last() as nat;
        let v = le_val(s.drop_last());
        lemma_le_val_bound(s.drop_last());
        assert(l * p <= 255 * p) by (nonlinear_arith)
            requires
                l <= 255,
        ;
        assert(pow256(s.len()) == 256 * p);
    }
}

proof fn lemma_le_val_step(s: Seq<u8>, i: int)
    requires
        0 <= i < s.len(),
    ensures
        le_val(s.subrange(0, i + 1)) == le_val(s.subrange(0, i)) + s[i] * pow256(i as nat),
{
    assert(s.subrange(0, i + 1).drop_last() =~= s.subrange(0, i));
}

proof fn lemma_addend_val(y: Seq<u8>, n: nat, m: nat, i: nat)
    requires
        n <= y.len(),
    ensures
        addend_val(y, n, m, i) == m * le_val(y.subrange(0, if i < n { i as int } else { n as int })),
    decreases i,
{
    if i > 0 {
        let j = (i - 1) as nat;
        lemma_addend_val(y, n, m, j);
        if j < n {
            lemma_le_val_step(y, j as int);
            let a = le_val(y.subrange(0, j as int));
            let p = pow256(j);
            let yj = y[j as int] as nat;
            assert(m * a + (m * yj) * p == m * (a + yj * p)) by (nonlinear_arith);
            assert(addend_val(y, n, m, i) == m * a + (m * yj) * p);
        } else {
            assert(addend(y, n, m, j) == 0);
            assert(addend_val(y, n, m, i) == addend_val(y, n, m, j));
        }
    } else {
        assert(le_val(y.subrange(0, 0)) == 0);
        assert(m * 0 == 0) by (nonlinear_arith);
    }
}

proof fn lemma_scalar_add_prefix(x: Seq<u8>, y: Seq<u8>, n: nat, m: nat, i: nat)
    requires
        x.len() == 32,
        n <= y.len(),
        i <= 32,
    ensures
        le_val(scalar_add(x, y, n, m).subrange(0, i as int)) + carry_at(x, y, n, m, i) * pow256(i)
            == le_val(x.subrange(0, i as int)) + addend_val(y, n, m, i),
    decreases i,
{
    if i > 0 {
        let j = (i - 1) as nat;
        let s = scalar_add(x, y, n, m);
        lemma_scalar_add_prefix(x, y, n, m, j);
        lemma_le_val_step(s, j as int);
        lemma_le_val_step(x, j as int);
        let r = x[j as int] + addend(y, n, m, j) + carry_at(x, y, n, m, j);
        let p = pow256(j);
        let d = r % 256;
        let c = r / 256;
        assert(s[j as int] == d);
        assert(carry_at(x, y, n, m, i) == c);
        assert(pow256(i) == 256 * p);
        assert(d * p + c * (256 * p) == r * p) by (nonlinear_arith)
            requires
                r == d + 256 * c,
        ;
        assert(r * p == x[j as int] * p + addend(y, n, m, j) * p + carry_at(x, y, n, m, j) * p)
            by (nonlinear_arith)
            requires
                r == x[j as int] + addend(y, n, m, j) + carry_at(x, y, n, m, j),
        ;
        assert(le_val(s.subrange(0, i as int)) == le_val(s.subrange(0, j as int)) + d * p);
        assert(addend_val(y, n, m, i) == addend_val(y, n, m, j) + addend(y, n, m, j) * p);
        assert(le_val(x.subrange(0, i as int)) == le_val(x.subrange(0, j as int)) + x[j as int] * p);
        let sj = le_val(s.subrange(0, j as int));
        let cj = carry_at(x, y, n, m, j);
        let xj = x[j as int] as int;
        let aj = addend(y, n, m, j) as int;
        assert(sj + d * p + c * (256 * p) == sj + xj * p + aj * p + cj * p) by (nonlinear_arith)
            requires
                d * p + c * (256 * p) == r * p,
                r * p == xj * p + aj * p + cj * p,
        ;
        assert(carry_at(x, y, n, m, i) * pow256(i) == c * (256 * p));
        assert(le_val(s.subrange(0, j as int)) + cj * p == le_val(x.subrange(0, j as int))
            + addend_val(y, n, m, j));
    } else {
        assert(carry_at(x, y, n, m, 0) == 0);
        assert(pow256(0) == 1);
        assert(addend_val(y, n, m, 0) == 0);
        assert(le_val(scalar_add(x, y, n, m).subrange(0, 0)) == 0);
        assert(le_val(x.subrange(0, 0)) == 0);
    }
}

/// What `scalar_add` computes: the little-endian value of its bytes is
/// `x + m * y[..n]` modulo 2^256.
pub proof fn lemma_scalar_add_value(x: Seq<u8>, y: Seq<u8>, n: nat, m: nat)
    requires
        x.len() == 32,
        n <= y.len(),
        n <= 32,
    ensures
        le_val(scalar_add(x, y, n, m)) == (le_val(x) + m * le_val(y.subrange(0, n as int))) as nat
            % pow256(32),
{
    let s = scalar_add(x, y, n, m);
    lemma_scalar_add_prefix(x, y, n, m, 32);
    lemma_addend_val(y, n, m, 32);
    assert(s.subrange(0, 32) =~= s);
    assert(x.subrange(0, 32) =~= x);
    lemma_le_val_bound(s);
    lemma_pow256_pos(32);
    vstd::arithmetic::div_mod::lemma_fundamental_div_mod_converse(
        (le_val(x) + m * le_val(y.subrange(0, n as int))) as int,
        pow256(32) as int,
        carry_at(x, y, n, m, 32) as int,
        le_val(s) as int,
    );
}

/// Adds `m * y[..n]` to the little-endian 256-bit number `x`, modulo 2^256.
pub fn add_scaled(x: &[u8], y: &[u8], n: usize, m: u16) -> (r: Vec<u8>)
    requires
        x@.len() == 32,
        n <= y@.len(),
        n <= 32,
        m <= 8,
    ensures
        r@ == scalar_add(x@, y@, n as nat, m as nat),
{
    let mut out: Vec<u8> = Vec::new();
    let mut carry: u16 = 0;
    let mut i: usize = 0;
    while i < 32
        invariant
            i <= 32,
            x@.len() == 32,
            n <= y@.len(),
            n <= 32,
            m <= 8,
            carry <= 8,
            carry == carry_at(x@, y@, n as nat, m as nat, i as nat),
            out@.len() == i,
            forall|j: int| 0 <= j < i ==> #[trigger] out@[j] == scalar_add(x@, y@, n as nat, m as nat)[j],
        decreases 32 - i,
    {
        let a: u16 = if i < n {
            let yi = y[i] as u16;
            assert(m * yi <= 8 * 255) by (nonlinear_arith)
                requires
                    m <= 8,
                    yi <= 255,
            ;
            m * yi
        } else {
            0
        };
        let v: u16 = x[i] as u16 + a + carry;
        out.push((v % 256) as u8);
        carry = v / 256;
        i = i + 1;
    }
    assert(out@ =~= scalar_add(x@, y@, n as nat, m as nat));
    out
}

/// `le_val(s) < 2^255` for 32 bytes exactly when the top byte is below 128.
pub proof fn lemma_byte31(s: Seq<u8>, bound: nat)
    requires
        s.len() == 32,
        le_val(s) < bound,
        bound <= 128 * pow256(31),
    ensures
        s[31] < 128,
{
    let p = pow256(31);
    assert(s.subrange(0, 32) =~= s);
    lemma_le_val_step(s, 31);
    let rest = le_val(s.subrange(0, 31));
    let top = s[31] as nat;
    if top >= 128 {
        assert(top * p >= 128 * p) by (nonlinear_arith)
            requires
                top >= 128,
        ;
    }
}

proof fn lemma_le_val_zeros(s: Seq<u8>)
    requires
        forall|i: int| 0 <= i < s.len() ==> s[i] == 0,
    ensures
        le_val(s) == 0,
    decreases s.len(),
{
    if s.len() > 0 {
        lemma_le_val_zeros(s.drop_last());
    }
}

/// Eight times a 28-byte number, as 32 bytes, has a top byte below 128.
pub proof fn lemma_tweak_top_byte(y: Seq<u8>)
    requires
        y.len() >= 28,
    ensures
        scalar_add(Seq::new(32, |i: int| 0u8), y, 28, 8)[31] < 128,
{
    let zeros = Seq::new(32, |i: int| 0u8);
    let t = scalar_add(zeros, y, 28, 8);
    lemma_scalar_add_value(zeros, y, 28, 8);
    lemma_le_val_zeros(zeros);
    lemma_le_val_bound(y.subrange(0, 28));
    lemma_pow256_pos(28);
    let yv = le_val(y.subrange(0, 28));
    let p28 = pow256(28);
    assert(pow256(29) == 256 * p28);
    assert(pow256(30) == 256 * pow256(29));
    assert(pow256(31) == 256 * pow256(30));
    assert(pow256(32) == 256 * pow256(31));
    assert(8 * yv < 8 * p28) by (nonlinear_arith)
        requires
            yv < p28,
    ;
    let v = (0 + 8 * yv) as nat;
    assert(v < pow256(32));
    vstd::arithmetic::div_mod::lemma_small_mod(v, pow256(32));
    lemma_byte31(t, 128 * pow256(31));
}

proof fn lemma_pow256_mono(a: nat, b: nat)
    requires
        a <= b,
    ensures
        pow256(a) <= pow256(b),
    decreases b,
{
    if a < b {
        lemma_pow256_mono(a, (b - 1) as nat);
    }
}

/// A number below the group order has a top byte below 128.
pub proof fn lemma_reduced_top_byte(s: Seq<u8>)
    requires
        s.len() == 32,
        le_val(s) < group_order(),
    ensures
        s[31] < 128,
{
    reveal_with_fuel(pow256, 16);
    assert(pow256(15) == 1329227995784915872903807060280344576);
    lemma_pow256_mono(16, 31);
    lemma_byte31(s, group_order());
}

} // verus!
