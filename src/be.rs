//! Byte strings read as big-endian unsigned integers, and the byte-wise
//! lexicographic order on them.
use vstd::prelude::*;

verus! {

/// 256^n.
pub open spec fn pow256(n: nat) -> nat
    decreases n,
{
    if n == 0 {
        1
    } else {
        256 * pow256((n - 1) as nat)
    }
}

/// The number that `s` stands for, most significant byte first.
pub open spec fn be_value(s: Seq<u8>) -> nat
    decreases s.len(),
{
    if s.len() == 0 {
        0
    } else {
        be_value(s.drop_last()) * 256 + s.last() as nat
    }
}

/// The `n`-byte big-endian encoding of `x`, keeping its low `8 * n` bits.
pub open spec fn be_bytes(x: nat, n: nat) -> Seq<u8>
    decreases n,
{
    if n == 0 {
        Seq::empty()
    } else {
        be_bytes(x / 256, (n - 1) as nat).push((x % 256) as u8)
    }
}

/// Byte-wise lexicographic comparison of two byte strings of one length.
pub open spec fn lex_cmp(a: Seq<u8>, b: Seq<u8>) -> core::cmp::Ordering
    decreases a.len(),
{
    if a.len() == 0 || b.len() == 0 {
        core::cmp::Ordering::Equal
    } else if a[0] < b[0] {
        core::cmp::Ordering::Less
    } else if a[0] > b[0] {
        core::cmp::Ordering::Greater
    } else {
        lex_cmp(a.skip(1), b.skip(1))
    }
}

/// The comparison of two naturals as an `Ordering`.
pub open spec fn nat_cmp(x: nat, y: nat) -> core::cmp::Ordering {
    if x < y {
        core::cmp::Ordering::Less
    } else if x > y {
        core::cmp::Ordering::Greater
    } else {
        core::cmp::Ordering::Equal
    }
}

pub proof fn lemma_pow256_positive(n: nat)
    ensures
        pow256(n) >= 1,
    decreases n,
{
    if n > 0 {
        lemma_pow256_positive((n - 1) as nat);
    }
}

/// A string of `n` bytes stands for a number below 256^n.
pub proof fn lemma_be_value_bound(s: Seq<u8>)
    ensures
        be_value(s) < pow256(s.len()),
    decreases s.len(),
{
    if s.len() > 0 {
        let p = s.drop_last();
        lemma_be_value_bound(p);
        let v = be_value(p);
        let q = pow256(p.len());
        let l = s.last() as nat;
        assert(v * 256 + l < q * 256) by (nonlinear_arith)
            requires
                v < q,
                l < 256,
        ;
    }
}

/// 256^m <= 256^n for m <= n.
pub proof fn lemma_pow256_monotone(m: nat, n: nat)
    requires
        m <= n,
    ensures
        pow256(m) <= pow256(n),
    decreases n,
{
    if m < n {
        lemma_pow256_monotone(m, (n - 1) as nat);
    }
}

/// 256^8 is 2^64 and 256^16 is 2^128.
pub proof fn lemma_pow256_machine_words()
    ensures
        pow256(8) == 0x1_0000_0000_0000_0000,
        pow256(16) == 0x1_0000_0000_0000_0000_0000_0000_0000_0000,
{
    reveal_with_fuel(pow256, 17);
}

/// Encoding a number that fits in `n` bytes and reading it back gives the
/// number.
pub proof fn lemma_be_value_of_bytes(x: nat, n: nat)
    requires
        x < pow256(n),
    ensures
        be_bytes(x, n).len() == n,
        be_value(be_bytes(x, n)) == x,
    decreases n,
{
    if n > 0 {
        let q = x / 256;
        let p = pow256((n - 1) as nat);
        assert(q < p) by (nonlinear_arith)
            requires
                x < 256 * p,
                q == x / 256,
        ;
        lemma_be_value_of_bytes(q, (n - 1) as nat);
        let e = be_bytes(x, n);
        assert(e.drop_last() =~= be_bytes(q, (n - 1) as nat));
    }
}

/// Reading bytes as a number and encoding it at the same length gives the
/// bytes.
pub proof fn lemma_bytes_of_be_value(b: Seq<u8>)
    ensures
        be_bytes(be_value(b), b.len()) == b,
    decreases b.len(),
{
    if b.len() > 0 {
        let p = b.drop_last();
        lemma_bytes_of_be_value(p);
        let v = be_value(b);
        assert(v / 256 == be_value(p));
        assert(v % 256 == b.last() as nat);
        assert(be_bytes(v, b.len()) =~= p.push(b.last()));
        assert(p.push(b.last()) =~= b);
    }
}

/// A single byte stands for itself.
pub proof fn lemma_be_value_single(d: u8)
    ensures
        be_value(seq![d]) == d as nat,
{
    assert(seq![d].drop_last() =~= Seq::<u8>::empty());
    assert(be_value(seq![d].drop_last()) == 0);
}

/// `n` bytes of `0xff` stand for 256^n - 1; `n` zero bytes for zero.
pub proof fn lemma_be_value_repeated(n: nat)
    ensures
        be_value(Seq::new(n, |i: int| 0u8)) == 0,
        be_value(Seq::new(n, |i: int| 0xffu8)) + 1 == pow256(n),
    decreases n,
{
    if n > 0 {
        let m = (n - 1) as nat;
        lemma_be_value_repeated(m);
        assert(Seq::new(n, |i: int| 0u8).drop_last() =~= Seq::new(m, |i: int| 0u8));
        assert(Seq::new(n, |i: int| 0xffu8).drop_last() =~= Seq::new(m, |i: int| 0xffu8));
    }
}

/// Reading the concatenation of two strings: the first is shifted up by the
/// length of the second.
pub proof fn lemma_be_value_concat(a: Seq<u8>, b: Seq<u8>)
    ensures
        be_value(a + b) == be_value(a) * pow256(b.len()) + be_value(b),
    decreases b.len(),
{
    if b.len() == 0 {
        assert(a + b =~= a);
        assert(be_value(b) == 0);
        assert(pow256(0) == 1);
        assert(be_value(a) * 1 == be_value(a));
    } else {
        let b1 = b.drop_last();
        assert((a + b).drop_last() =~= a + b1);
        assert((a + b).last() == b.last());
        lemma_be_value_concat(a, b1);
        let va = be_value(a);
        let vb = be_value(b1);
        let p = pow256(b1.len());
        let l = b.last() as nat;
        assert(pow256(b.len()) == 256 * p);
        assert(be_value(a + b) == be_value(a + b1) * 256 + l);
        assert(be_value(b) == vb * 256 + l);
        assert((va * p + vb) * 256 + l == va * (256 * p) + (vb * 256 + l)) by (nonlinear_arith);
    }
}

/// The first byte of a non-empty string weighs 256^(n-1).
pub proof fn lemma_be_value_first(s: Seq<u8>)
    requires
        s.len() > 0,
    ensures
        be_value(s) == s[0] as nat * pow256((s.len() - 1) as nat) + be_value(s.skip(1)),
{
    let h = seq![s[0]];
    assert(h + s.skip(1) =~= s);
    lemma_be_value_concat(h, s.skip(1));
    lemma_be_value_single(s[0]);
}

/// Byte-wise lexicographic order on strings of one length is the order of
/// the big-endian numbers they stand for.
pub proof fn lemma_lex_cmp_is_numeric(a: Seq<u8>, b: Seq<u8>)
    requires
        a.len() == b.len(),
    ensures
        lex_cmp(a, b) == nat_cmp(be_value(a), be_value(b)),
        lex_cmp(a, b) == core::cmp::Ordering::Equal <==> a == b,
    decreases a.len(),
{
    if a.len() == 0 {
        assert(a =~= b);
    } else {
        let n = (a.len() - 1) as nat;
        let p = pow256(n);
        lemma_be_value_first(a);
        lemma_be_value_first(b);
        lemma_be_value_bound(a.skip(1));
        lemma_be_value_bound(b.skip(1));
        lemma_lex_cmp_is_numeric(a.skip(1), b.skip(1));
        let x = a[0] as nat;
        let y = b[0] as nat;
        let ra = be_value(a.skip(1));
        let rb = be_value(b.skip(1));
        if x < y {
            assert(x * p + ra < y * p + rb) by (nonlinear_arith)
                requires
                    x < y,
                    ra < p,
            ;
            assert(a[0] != b[0]);
        } else if x > y {
            assert(y * p + rb < x * p + ra) by (nonlinear_arith)
                requires
                    y < x,
                    rb < p,
            ;
            assert(a[0] != b[0]);
        } else {
            if a.skip(1) == b.skip(1) {
                assert(a =~= seq![a[0]] + a.skip(1));
                assert(b =~= seq![b[0]] + b.skip(1));
            } else if a == b {
                assert(a.skip(1) =~= b.skip(1));
            }
        }
    }
}

} // verus!
