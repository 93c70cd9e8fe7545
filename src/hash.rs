//! Fixed-width binary identifiers (hashes, addresses, signatures): `N` bytes,
//! most significant first when read as a number.
use vstd::prelude::*;

use crate::be::{
    be_bytes, be_value, lemma_be_value_concat, lemma_be_value_repeated, lemma_be_value_single,
    lemma_bytes_of_be_value, lemma_lex_cmp_is_numeric, lemma_pow256_machine_words,
    lemma_pow256_monotone, lemma_pow256_positive, lex_cmp, nat_cmp, pow256,
};
use crate::hex::{
    all_hex_digits, hex_decode, hex_digit_char, hex_digit_value, hex_encode, hex_pair,
    is_hex_digit, lemma_hex_decode_encode,
};
use crate::{remove_0x_prefix, strip_0x};
use core::cmp::Ordering;
use vstd::std_specs::cmp::{PartialEqSpec, PartialOrdSpec};

verus! {

/// An identifier of `N` bytes. Equality and order are byte-wise, which is the
/// order of the big-endian numbers the bytes stand for.
#[derive(Clone, Copy, Debug, Eq, Hash, Ord)]
pub struct FixedHash<const N: usize>(pub [u8; N]);

/// 16 bytes, a 128-bit quantity.
pub type H128 = FixedHash<16>;

/// 20 bytes, an address.
pub type H160 = FixedHash<20>;

/// 32 bytes, a 256-bit hash.
pub type H256 = FixedHash<32>;

/// 33 bytes, a compressed public key.
pub type H264 = FixedHash<33>;

/// 64 bytes, a public key.
pub type H512 = FixedHash<64>;

/// 65 bytes, a recoverable signature.
pub type H520 = FixedHash<65>;

/// Why a text is not the hex form of an identifier.
#[derive(Clone, Copy, Debug, PartialEq, Eq, Structural)]
pub enum FormatError {
    /// After the optional `0x`, the text does not hold two digits per byte.
    InvalidLength,
    /// The character at this position (counted after the optional `0x`) is
    /// not a hex digit; it is the first such character.
    InvalidCharacter(usize),
}

/// What parsing `s` as the hex form of `n` bytes gives: the bytes, or the
/// error for the text.
pub open spec fn parse_hex(s: Seq<char>, n: nat) -> Result<Seq<u8>, FormatError> {
    let t = strip_0x(s);
    if t.len() != 2 * n {
        Err(FormatError::InvalidLength)
    } else if all_hex_digits(t) {
        Ok(hex_decode(t))
    } else {
        let i = choose|i: int| 0 <= i < t.len() && !is_hex_digit(t[i]) && all_hex_digits(t.take(i));
        Err(FormatError::InvalidCharacter(i as usize))
    }
}

/// The identifier whose bytes are `b` (of length `N`).
pub open spec fn with_bytes<const N: usize>(b: Seq<u8>) -> FixedHash<N> {
    choose|h: FixedHash<N>| h.0@ == b
}

/// Relies on `String::push`: appends one character.
#[verifier::external_body]
fn push_char(s: &mut String, c: char)
    ensures
        final(s)@ == old(s)@.push(c),
{
    s.push(c);
}

impl<const N: usize> FixedHash<N> {
    /// The bytes as a sequence.
    pub open spec fn bytes(&self) -> Seq<u8> {
        self.0@
    }

    /// The number the bytes stand for, big-endian.
    pub open spec fn value(&self) -> nat {
        be_value(self.0@)
    }

    /// All bytes zero.
    pub fn zero() -> (r: Self)
        ensures
            r.bytes() == Seq::new(N as nat, |i: int| 0u8),
            r.value() == 0,
    {
        let r = FixedHash([0u8; N]);
        assert(r.bytes() =~= Seq::new(N as nat, |i: int| 0u8));
        proof {
            lemma_be_value_repeated(N as nat);
        }
        r
    }

    /// All bytes `0xff`.
    pub fn max() -> (r: Self)
        ensures
            r.bytes() == Seq::new(N as nat, |i: int| 0xffu8),
            r.value() + 1 == pow256(N as nat),
    {
        let r = FixedHash([0xffu8; N]);
        assert(r.bytes() =~= Seq::new(N as nat, |i: int| 0xffu8));
        proof {
            lemma_be_value_repeated(N as nat);
        }
        r
    }

    /// The identifier whose bytes are the big-endian encoding of `x`, zero
    /// on the high side.
    pub fn from_uint(x: u128) -> (r: Self)
        requires
            (x as nat) < pow256(N as nat),
        ensures
            r.bytes() == be_bytes(x as nat, N as nat),
            r.value() == x,
    {
        let mut bytes = [0u8; N];
        let mut v: u128 = x;
        let mut i: usize = N;
        proof {
            assert(bytes@.skip(N as int) =~= Seq::<u8>::empty());
            assert(be_value(bytes@.skip(N as int)) == 0);
            assert(pow256(0) == 1);
            assert(v as nat * 1 == v as nat);
        }
        while i > 0
            invariant
                i <= N,
                bytes@.len() == N,
                x as nat == v as nat * pow256((N - i) as nat) + be_value(bytes@.skip(i as int)),
            decreases i,
        {
            let ghost old_tail = bytes@.skip(i as int);
            let ghost k = (N - i) as nat;
            i = i - 1;
            let d = (v % 256) as u8;
            bytes[i] = d;
            proof {
                let tail = bytes@.skip(i as int);
                assert(tail =~= seq![d] + old_tail);
                lemma_be_value_concat(seq![d], old_tail);
                lemma_be_value_single(d);
                assert(old_tail.len() == k);
                assert(pow256(k + 1) == 256 * pow256(k));
                let vn = v as nat;
                let p = pow256(k);
                let rest = be_value(old_tail);
                assert((vn / 256) * (256 * p) + ((vn % 256) * p + rest) == vn * p + rest)
                    by (nonlinear_arith);
            }
            v = v / 256;
        }
        proof {
            assert(bytes@.skip(0) =~= bytes@);
            lemma_pow256_positive(N as nat);
            assert(v == 0) by (nonlinear_arith)
                requires
                    x as nat == v as nat * pow256(N as nat) + be_value(bytes@),
                    (x as nat) < pow256(N as nat),
                    pow256(N as nat) >= 1,
            ;
            lemma_bytes_of_be_value(bytes@);
        }
        FixedHash(bytes)
    }

    /// An identifier of at least eight bytes holding `x`, big-endian, zero
    /// on the high side.
    pub fn from_u64(x: u64) -> (r: Self)
        requires
            N >= 8,
        ensures
            r == with_bytes::<N>(be_bytes(x as nat, N as nat)),
            r.value() == x,
    {
        proof {
            lemma_pow256_machine_words();
            lemma_pow256_monotone(8, N as nat);
        }
        let r = Self::from_uint(x as u128);
        proof {
            lemma_with_bytes(r);
        }
        r
    }

    /// The lowercase hex form, two digits per byte, without a prefix.
    pub fn to_hex(&self) -> (r: String)
        ensures
            r@ == hex_encode(self.bytes()),
    {
        let mut r = String::new();
        let mut i: usize = 0;
        while i < N
            invariant
                i <= N,
                r@.len() == 2 * i,
                forall|j: int| 0 <= j < 2 * i ==> r@[j] == #[trigger] hex_encode(self.bytes())[j],
            decreases N - i,
        {
            let b = self.0[i];
            push_char(&mut r, hex_digit_char(b / 16));
            push_char(&mut r, hex_digit_char(b % 16));
            assert forall|j: int| 0 <= j < 2 * i + 2 implies r@[j] == #[trigger] hex_encode(
                self.bytes(),
            )[j] by {
                if j >= 2 * i {
                    assert(j / 2 == i as int);
                }
            }
            i = i + 1;
        }
        assert(r@ =~= hex_encode(self.bytes()));
        r
    }

    /// Parses the hex form of the identifier: exactly two digits per byte, of
    /// either case, after an optional lowercase `0x`.
    pub fn from_hex(s: &str) -> (r: Result<Self, FormatError>)
        ensures
            match r {
                Ok(h) => parse_hex(s@, N as nat) == Ok::<Seq<u8>, FormatError>(h.bytes()),
                Err(e) => parse_hex(s@, N as nat) == Err::<Seq<u8>, FormatError>(e),
            },
    {
        let t = remove_0x_prefix(s);
        let n = t.unicode_len();
        if n % 2 != 0 || n / 2 != N {
            return Err(FormatError::InvalidLength);
        }
        let mut bytes = [0u8; N];
        let mut i: usize = 0;
        while i < N
            invariant
                t@ == strip_0x(s@),
                n == t@.len(),
                n == 2 * N,
                i <= N,
                bytes@.len() == N,
                all_hex_digits(t@.take(2 * i as int)),
                forall|j: int| 0 <= j < i ==> bytes@[j] == #[trigger] hex_decode(t@)[j],
            decreases N - i,
        {
            let c1 = t.get_char(2 * i);
            let c2 = t.get_char(2 * i + 1);
            let hi = hex_digit_value(c1);
            let lo = hex_digit_value(c2);
            match hi {
                None => {
                    proof {
                        self::lemma_first_bad_digit(t@, 2 * i as int);
                    }
                    return Err(FormatError::InvalidCharacter(2 * i));
                },
                Some(h) => {
                    match lo {
                        None => {
                            proof {
                                assert(all_hex_digits(t@.take(2 * i + 1))) by {
                                    assert forall|j: int| 0 <= j < 2 * i + 1 implies is_hex_digit(
                                        #[trigger] t@.take(2 * i + 1)[j],
                                    ) by {
                                        if j < 2 * i {
                                            assert(t@.take(2 * i as int)[j] == t@[j]);
                                        }
                                    }
                                }
                                self::lemma_first_bad_digit(t@, 2 * i + 1);
                            }
                            return Err(FormatError::InvalidCharacter(2 * i + 1));
                        },
                        Some(l) => {
                            bytes[i] = h * 16 + l;
                            proof {
                                assert(hex_decode(t@)[i as int] == hex_pair(t@[2 * i], t@[2 * i + 1]));
                                assert forall|j: int| 0 <= j < 2 * i + 2 implies is_hex_digit(
                                    #[trigger] t@.take(2 * i + 2)[j],
                                ) by {
                                    if j < 2 * i {
                                        assert(t@.take(2 * i as int)[j] == t@[j]);
                                    }
                                }
                            }
                        },
                    }
                },
            }
            i = i + 1;
        }
        proof {
            assert(t@.take(2 * N as int) =~= t@);
            assert(bytes@ =~= hex_decode(t@));
        }
        Ok(FixedHash(bytes))
    }
}

/// Compares two byte arrays of one length byte by byte.
fn compare_bytes<const N: usize>(a: &[u8; N], b: &[u8; N]) -> (r: Ordering)
    ensures
        r == lex_cmp(a@, b@),
{
    let mut i: usize = 0;
    assert(a@.skip(0) =~= a@);
    assert(b@.skip(0) =~= b@);
    while i < N
        invariant
            i <= N,
            a@.len() == N,
            b@.len() == N,
            lex_cmp(a@, b@) == lex_cmp(a@.skip(i as int), b@.skip(i as int)),
        decreases N - i,
    {
        let x = a[i];
        let y = b[i];
        assert(a@.skip(i as int)[0] == x);
        assert(b@.skip(i as int)[0] == y);
        if x < y {
            return Ordering::Less;
        } else if x > y {
            return Ordering::Greater;
        }
        assert(a@.skip(i as int).skip(1) =~= a@.skip(i + 1));
        assert(b@.skip(i as int).skip(1) =~= b@.skip(i + 1));
        i = i + 1;
    }
    Ordering::Equal
}

impl<const N: usize> PartialEq for FixedHash<N> {
    fn eq(&self, other: &Self) -> (r: bool) {
        proof {
            lemma_lex_cmp_is_numeric(self.0@, other.0@);
        }
        match compare_bytes(&self.0, &other.0) {
            Ordering::Equal => true,
            _ => false,
        }
    }
}

impl<const N: usize> vstd::std_specs::cmp::PartialEqSpecImpl for FixedHash<N> {
    open spec fn obeys_eq_spec() -> bool {
        true
    }

    open spec fn eq_spec(&self, other: &Self) -> bool {
        self.0@ == other.0@
    }
}

impl<const N: usize> PartialOrd for FixedHash<N> {
    fn partial_cmp(&self, other: &Self) -> (r: Option<Ordering>) {
        Some(compare_bytes(&self.0, &other.0))
    }
}

impl<const N: usize> vstd::std_specs::cmp::PartialOrdSpecImpl for FixedHash<N> {
    open spec fn obeys_partial_cmp_spec() -> bool {
        true
    }

    open spec fn partial_cmp_spec(&self, other: &Self) -> Option<Ordering> {
        Some(lex_cmp(self.0@, other.0@))
    }
}

impl<const N: usize> core::str::FromStr for FixedHash<N> {
    type Err = FormatError;

    /// The same as `from_hex`.
    fn from_str(s: &str) -> (r: Result<Self, FormatError>)
        ensures
            match r {
                Ok(h) => parse_hex(s@, N as nat) == Ok::<Seq<u8>, FormatError>(h.bytes()),
                Err(e) => parse_hex(s@, N as nat) == Err::<Seq<u8>, FormatError>(e),
            },
    {
        Self::from_hex(s)
    }
}

impl<const N: usize> Default for FixedHash<N> {
    /// All bytes zero, as `zero` gives.
    fn default() -> (r: Self)
        ensures
            r.bytes() == Seq::new(N as nat, |i: int| 0u8),
            r.value() == 0,
    {
        Self::zero()
    }
}

/// Parsing the hex form of an identifier gives the identifier back, with or
/// without a `0x` in front.
pub proof fn lemma_hex_round_trip<const N: usize>(h: FixedHash<N>)
    ensures
        parse_hex(hex_encode(h.bytes()), N as nat) == Ok::<Seq<u8>, FormatError>(h.bytes()),
        parse_hex(seq!['0', 'x'] + hex_encode(h.bytes()), N as nat) == Ok::<Seq<u8>, FormatError>(
            h.bytes(),
        ),
{
    let e = hex_encode(h.bytes());
    lemma_hex_decode_encode(h.bytes());
    assert(strip_0x(e) == e);
    assert((seq!['0', 'x'] + e).skip(2) =~= e);
}

/// Identifiers of one width are ordered as the big-endian numbers their
/// bytes stand for, and equal exactly when those numbers are.
pub proof fn lemma_order_is_numeric<const N: usize>(a: FixedHash<N>, b: FixedHash<N>)
    ensures
        a.partial_cmp_spec(&b) == Some(nat_cmp(a.value(), b.value())),
        a.partial_cmp_spec(&b) == Some(Ordering::Less) <==> a.value() < b.value(),
        a.eq_spec(&b) <==> a.value() == b.value(),
{
    lemma_lex_cmp_is_numeric(a.0@, b.0@);
}

/// An identifier is the one `with_bytes` gives for its bytes.
pub proof fn lemma_with_bytes<const N: usize>(h: FixedHash<N>)
    ensures
        with_bytes::<N>(h.0@) == h,
{
    let c = with_bytes::<N>(h.0@);
    assert(c.0@ == h.0@);
    assert(c.0 =~= h.0);
}

/// An array of `N` bytes whose first `k` bytes are those of `b`.
proof fn array_with_prefix<const N: usize>(b: Seq<u8>, k: nat) -> (a: [u8; N])
    requires
        b.len() == N,
        k <= N,
    ensures
        forall|i: int| 0 <= i < k ==> a@[i] == b[i],
    decreases k,
{
    if k == 0 {
        vstd::array::spec_array_fill_for_copy_type::<u8, N>(0u8)
    } else {
        let p = array_with_prefix::<N>(b, (k - 1) as nat);
        let a = vstd::array::spec_array_update(p, k - 1, b[k - 1]);
        assert(a@ == p@.update(k - 1, b[k - 1]));
        a
    }
}

/// `with_bytes` gives an identifier holding exactly the bytes it is given.
pub proof fn lemma_with_bytes_bytes<const N: usize>(b: Seq<u8>)
    requires
        b.len() == N,
    ensures
        with_bytes::<N>(b).bytes() == b,
{
    let a = array_with_prefix::<N>(b, N as nat);
    assert(a@ =~= b);
    let w = FixedHash(a);
    assert(w.0@ == b);
}

impl From<u64> for FixedHash<16> {
    fn from(x: u64) -> (r: Self) {
        Self::from_u64(x)
    }
}

impl vstd::std_specs::convert::FromSpecImpl<u64> for FixedHash<16> {
    open spec fn obeys_from_spec() -> bool {
        true
    }

    open spec fn from_spec(x: u64) -> Self {
        with_bytes(be_bytes(x as nat, 16))
    }
}

impl From<u64> for FixedHash<20> {
    fn from(x: u64) -> (r: Self) {
        Self::from_u64(x)
    }
}

impl vstd::std_specs::convert::FromSpecImpl<u64> for FixedHash<20> {
    open spec fn obeys_from_spec() -> bool {
        true
    }

    open spec fn from_spec(x: u64) -> Self {
        with_bytes(be_bytes(x as nat, 20))
    }
}

impl From<u64> for FixedHash<32> {
    fn from(x: u64) -> (r: Self) {
        Self::from_u64(x)
    }
}

impl vstd::std_specs::convert::FromSpecImpl<u64> for FixedHash<32> {
    open spec fn obeys_from_spec() -> bool {
        true
    }

    open spec fn from_spec(x: u64) -> Self {
        with_bytes(be_bytes(x as nat, 32))
    }
}

impl From<u64> for FixedHash<33> {
    fn from(x: u64) -> (r: Self) {
        Self::from_u64(x)
    }
}

impl vstd::std_specs::convert::FromSpecImpl<u64> for FixedHash<33> {
    open spec fn obeys_from_spec() -> bool {
        true
    }

    open spec fn from_spec(x: u64) -> Self {
        with_bytes(be_bytes(x as nat, 33))
    }
}

impl From<u64> for FixedHash<64> {
    fn from(x: u64) -> (r: Self) {
        Self::from_u64(x)
    }
}

impl vstd::std_specs::convert::FromSpecImpl<u64> for FixedHash<64> {
    open spec fn obeys_from_spec() -> bool {
        true
    }

    open spec fn from_spec(x: u64) -> Self {
        with_bytes(be_bytes(x as nat, 64))
    }
}

impl From<u64> for FixedHash<65> {
    fn from(x: u64) -> (r: Self) {
        Self::from_u64(x)
    }
}

impl vstd::std_specs::convert::FromSpecImpl<u64> for FixedHash<65> {
    open spec fn obeys_from_spec() -> bool {
        true
    }

    open spec fn from_spec(x: u64) -> Self {
        with_bytes(be_bytes(x as nat, 65))
    }
}

/// When `t[i]` is the first character of `t` that is not a hex digit, it is
/// the one that `parse_hex` reports.
pub proof fn lemma_first_bad_digit(t: Seq<char>, i: int)
    requires
        0 <= i < t.len(),
        !is_hex_digit(t[i]),
        all_hex_digits(t.take(i)),
    ensures
        !all_hex_digits(t),
        (choose|k: int| 0 <= k < t.len() && !is_hex_digit(t[k]) && all_hex_digits(t.take(k))) == i,
{
    let k = choose|k: int| 0 <= k < t.len() && !is_hex_digit(t[k]) && all_hex_digits(t.take(k));
    if k < i {
        assert(t.take(i)[k] == t[k]);
    } else if k > i {
        assert(t.take(k)[i] == t[i]);
    }
}

} // verus!
