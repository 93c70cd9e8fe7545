use vstd::prelude::*;

pub mod be;
pub mod hash;
pub mod hex;

pub use crate::hash::{FixedHash, FormatError, H128, H160, H256, H264, H512, H520};
pub use ethereum_types::U256;

use crate::be::{
    be_bytes, be_value, lemma_be_value_bound, lemma_be_value_of_bytes, lemma_bytes_of_be_value,
    lemma_be_value_concat, lemma_pow256_machine_words, lemma_pow256_monotone, pow256,
};
use crate::hash::{lemma_with_bytes, with_bytes};

verus! {

/// An arbitrary-length byte payload.
pub type Bytes = Vec<u8>;

/// The 16-byte identifier holding `u`, most significant byte first.
pub fn h128_from_u128(u: u128) -> (r: H128)
    ensures
        r.bytes() == be_bytes(u as nat, 16),
        r.value() == u,
{
    proof {
        lemma_pow256_machine_words();
    }
    H128::from_uint(u)
}

/// The number that a 16-byte identifier stands for, big-endian.
pub fn u128_from_h128(h: &H128) -> (r: u128)
    ensures
        r == h.value(),
{
    let mut acc: u128 = 0;
    let mut i: usize = 0;
    proof {
        lemma_pow256_machine_words();
        assert(h.0@.take(0) =~= Seq::<u8>::empty());
    }
    while i < 16
        invariant
            i <= 16,
            h.0@.len() == 16,
            acc == be_value(h.0@.take(i as int)),
            pow256(16) == 0x1_0000_0000_0000_0000_0000_0000_0000_0000,
        decreases 16 - i,
    {
        proof {
            lemma_be_value_bound(h.0@.take(i as int + 1));
            lemma_pow256_monotone(i as nat + 1, 16);
            assert(h.0@.take(i as int + 1).drop_last() =~= h.0@.take(i as int));
        }
        acc = acc * 256 + h.0[i] as u128;
        i = i + 1;
    }
    assert(h.0@.take(16) =~= h.0@);
    acc
}

/// Converting a 128-bit integer to its 16-byte identifier and back gives the
/// integer; converting an identifier to its integer and back gives the
/// identifier.
pub proof fn lemma_h128_round_trip(x: u128, h: H128)
    ensures
        be_value(be_bytes(x as nat, 16)) == x,
        be_bytes(h.value(), 16) == h.bytes(),
{
    lemma_pow256_machine_words();
    lemma_be_value_of_bytes(x as nat, 16);
    lemma_bytes_of_be_value(h.bytes());
}

/// The 128-bit unsigned integer of `ethereum_types`: two 64-bit limbs, least
/// significant first, in its one public field.
#[verifier::external_type_specification]
pub struct ExU128(ethereum_types::U128);

/// 2^64, the weight of the second limb.
pub open spec fn limb_base() -> nat {
    0x1_0000_0000_0000_0000
}

/// The number that two little-endian 64-bit limbs stand for.
pub open spec fn limbs128_value(limbs: Seq<u64>) -> nat {
    limbs[0] as nat + limbs[1] as nat * limb_base()
}

impl From<ethereum_types::U128> for H128 {
    /// The identifier holding the integer, most significant byte first.
    fn from(v: ethereum_types::U128) -> (r: Self) {
        let lo = v.0[0] as u128;
        let hi = v.0[1] as u128;
        let x = hi * 0x1_0000_0000_0000_0000 + lo;
        proof {
            lemma_pow256_machine_words();
        }
        let r = H128::from_uint(x);
        proof {
            lemma_with_bytes(r);
        }
        r
    }
}

impl vstd::std_specs::convert::FromSpecImpl<ethereum_types::U128> for H128 {
    open spec fn obeys_from_spec() -> bool {
        true
    }

    open spec fn from_spec(v: ethereum_types::U128) -> Self {
        with_bytes(be_bytes(limbs128_value(v.0@), 16))
    }
}

/// The 256-bit unsigned integer of `ethereum_types`, a tuple of four 64-bit
/// limbs stored least significant first. Its one field is public, so its limbs
/// are visible to contracts.
#[verifier::external_type_specification]
pub struct ExU256(ethereum_types::U256);

/// The number that four little-endian 64-bit limbs stand for.
pub open spec fn limbs_value(limbs: Seq<u64>) -> nat
    recommends
        limbs.len() == 4,
{
    limbs[0] as nat + limbs[1] as nat * limb_base() + limbs[2] as nat * limb_base() * limb_base()
        + limbs[3] as nat * limb_base() * limb_base() * limb_base()
}

/// The number that the top `k` of little-endian 64-bit limbs stand for.
pub open spec fn top_limbs_value(limbs: Seq<u64>, k: nat) -> nat
    decreases k,
{
    if k == 0 {
        0
    } else {
        top_limbs_value(limbs, (k - 1) as nat) * limb_base() + limbs[limbs.len() - k] as nat
    }
}

impl From<ethereum_types::U256> for H256 {
    /// The identifier holding the integer, most significant byte first.
    fn from(v: ethereum_types::U256) -> (r: Self) {
        let mut bytes = [0u8; 32];
        let mut k: usize = 0;
        proof {
            lemma_pow256_machine_words();
            assert(bytes@.take(0) =~= Seq::<u8>::empty());
        }
        while k < 4
            invariant
                k <= 4,
                bytes@.len() == 32,
                v.0@.len() == 4,
                be_value(bytes@.take(8 * k as int)) == top_limbs_value(v.0@, k as nat),
                pow256(8) == limb_base(),
            decreases 4 - k,
        {
            let limb = v.0[3 - k];
            let part = FixedHash::<8>::from_uint(limb as u128);
            let ghost prefix = bytes@.take(8 * k as int);
            let mut j: usize = 0;
            proof {
                assert(part.0@.take(0) =~= Seq::<u8>::empty());
                assert(bytes@.take(8 * k as int + 0) =~= prefix + part.0@.take(0));
            }
            while j < 8
                invariant
                    k < 4,
                    j <= 8,
                    bytes@.len() == 32,
                    prefix.len() == 8 * k,
                    bytes@.take(8 * k as int + j as int) == prefix + part.0@.take(j as int),
                decreases 8 - j,
            {
                let ghost before = bytes@;
                bytes[8 * k + j] = part.0[j];
                proof {
                    assert forall|i: int| 0 <= i < 8 * k + j implies bytes@[i] == before.take(
                        8 * k as int + j as int,
                    )[i] by {}
                    assert(bytes@.take(8 * k as int + j as int + 1) =~= prefix + part.0@.take(
                        j as int + 1,
                    ));
                }
                j = j + 1;
            }
            proof {
                assert(part.0@.take(8) =~= part.0@);
                lemma_be_value_concat(prefix, part.0@);
            }
            k = k + 1;
        }
        proof {
            assert(bytes@.take(32) =~= bytes@);
            lemma_bytes_of_be_value(bytes@);
            reveal_with_fuel(top_limbs_value, 5);
        }
        let r = FixedHash(bytes);
        proof {
            lemma_with_bytes(r);
        }
        r
    }
}

impl vstd::std_specs::convert::FromSpecImpl<ethereum_types::U256> for H256 {
    open spec fn obeys_from_spec() -> bool {
        true
    }

    open spec fn from_spec(v: ethereum_types::U256) -> Self {
        with_bytes(be_bytes(limbs_value(v.0@), 32))
    }
}

/// A 128-bit integer widened to a 256-bit one: the low half in limb 0, the
/// high half in limb 1, and the two upper limbs zero.
pub fn u256_from_u128(u: u128) -> (r: ethereum_types::U256)
    ensures
        r.0@ == seq![(u % 0x1_0000_0000_0000_0000) as u64, (u / 0x1_0000_0000_0000_0000) as u64, 0u64, 0u64],
        limbs_value(r.0@) == u,
{
    let mut arr: [u64; 4] = [0, 0, 0, 0];
    assert(u & 0xffff_ffff_ffff_ffffu128 == u % 0x1_0000_0000_0000_0000) by (bit_vector);
    assert(u >> 64u128 == u / 0x1_0000_0000_0000_0000) by (bit_vector);
    arr[0] = (u & 0xffff_ffff_ffff_ffffu128) as u64;
    arr[1] = (u >> 64u128) as u64;
    let r = ethereum_types::U256(arr);
    assert(r.0@ =~= seq![(u % 0x1_0000_0000_0000_0000) as u64, (u / 0x1_0000_0000_0000_0000) as u64, 0u64, 0u64]);
    r
}

/// `s` with a leading lowercase `0x` taken off; any other string as it is.
pub open spec fn strip_0x(s: Seq<char>) -> Seq<char> {
    if s.len() >= 2 && s[0] == '0' && s[1] == 'x' {
        s.skip(2)
    } else {
        s
    }
}

/// Stripping the prefix a second time changes nothing, unless the text
/// began with `0x0x`.
pub proof fn lemma_strip_0x_idempotent(s: Seq<char>)
    requires
        !(s.len() >= 4 && s[0] == '0' && s[1] == 'x' && s[2] == '0' && s[3] == 'x'),
    ensures
        strip_0x(strip_0x(s)) == strip_0x(s),
{
}

/// Return `s` without the `0x` at the beginning of it, if any.
pub fn remove_0x_prefix(s: &str) -> (r: &str)
    ensures
        r@ == strip_0x(s@),
{
    let n = s.unicode_len();
    if n >= 2 && s.get_char(0) == '0' && s.get_char(1) == 'x' {
        s.substring_char(2, n)
    } else {
        s
    }
}

} // verus!
