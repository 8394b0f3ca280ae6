//! A bit-set with explicit length and least-significant-bit-first order,
//! independent of any host representation: bit `i` of the wire form is
//! bit `i % 8` of byte `i / 8`.

use vstd::prelude::*;
use crate::codec::{starts_with_at, lemma_starts_with_concat, lemma_concat_starts_with};

verus! {

/// A sequence of bits with explicit length, least-significant-bit-first.
#[derive(Clone, Debug, PartialEq, Eq)]
pub struct Bitfield {
    /// The bits, index order equals wire order.
    pub bits: Vec<bool>,
}

impl View for Bitfield {
    type V = Seq<bool>;

    open spec fn view(&self) -> Seq<bool> {
        self.bits@
    }
}

/// How many bits of `s` are set.
pub open spec fn count_ones(s: Seq<bool>) -> nat
    decreases s.len(),
{
    if s.len() == 0 {
        0
    } else {
        (if s[0] {
            1nat
        } else {
            0nat
        }) + count_ones(s.skip(1))
    }
}

/// Appending a bit adds its weight to the count.
pub proof fn lemma_count_ones_push(s: Seq<bool>, b: bool)
    ensures
        count_ones(s.push(b)) == count_ones(s) + (if b {
            1nat
        } else {
            0nat
        }),
    decreases s.len(),
{
    if s.len() == 0 {
        assert(s.push(b)[0] == b);
        assert(s.push(b).skip(1) =~= Seq::<bool>::empty());
        assert(count_ones(s.push(b).skip(1)) == 0);
        assert(count_ones(s) == 0);
        assert(count_ones(s.push(b)) == (if b {
            1nat
        } else {
            0nat
        }) + count_ones(s.push(b).skip(1)));
    } else {
        assert(s.push(b)[0] == s[0]);
        assert(s.push(b).skip(1) =~= s.skip(1).push(b));
        lemma_count_ones_push(s.skip(1), b);
        assert(count_ones(s.push(b)) == (if s[0] {
            1nat
        } else {
            0nat
        }) + count_ones(s.skip(1).push(b)));
        assert(count_ones(s) == (if s[0] {
            1nat
        } else {
            0nat
        }) + count_ones(s.skip(1)));
    }
}

/// A sequence with no set bit counts zero.
pub proof fn lemma_count_ones_all_clear(s: Seq<bool>)
    requires
        forall|i: int| 0 <= i < s.len() ==> !s[i],
    ensures
        count_ones(s) == 0,
    decreases s.len(),
{
    if s.len() > 0 {
        lemma_count_ones_all_clear(s.skip(1));
    }
}

impl Bitfield {
    /// Wrap a vector of bits.
    pub fn from_bits(bits: Vec<bool>) -> (r: Bitfield)
        ensures
            r@ == bits@,
    {
        Bitfield { bits }
    }

    /// The number of bits.
    pub fn len(&self) -> (r: usize)
        ensures
            r == self@.len(),
    {
        self.bits.len()
    }

    /// The bit at position `i`.
    pub fn get(&self, i: usize) -> (r: bool)
        requires
            i < self@.len(),
        ensures
            r == self@[i as int],
    {
        self.bits[i]
    }

    /// How many bits are set.
    pub fn count_ones(&self) -> (r: usize)
        ensures
            r == count_ones(self@),
    {
        let mut cnt: usize = 0;
        let mut i: usize = 0;
        proof {
            assert(self@.take(0) =~= Seq::<bool>::empty());
        }
        while i < self.bits.len()
            invariant
                i <= self@.len(),
                cnt == count_ones(self@.take(i as int)),
                cnt <= i,
            decreases self@.len() - i,
        {
            proof {
                lemma_count_ones_push(self@.take(i as int), self@[i as int]);
                assert(self@.take(i as int).push(self@[i as int]) =~= self@.take(i + 1));
            }
            if self.bits[i] {
                cnt = cnt + 1;
            }
            i = i + 1;
        }
        proof {
            assert(self@.take(self@.len() as int) =~= self@);
        }
        cnt
    }
}

/// A bitfield over the whole validator set: a set bit at position `i`
/// asserts that validator `i` attests availability of the candidate on
/// its core.
#[derive(Clone, Debug, PartialEq, Eq)]
pub struct AvailabilityBitfield(pub Bitfield);

impl View for AvailabilityBitfield {
    type V = Seq<bool>;

    open spec fn view(&self) -> Seq<bool> {
        self.0@
    }
}

impl AvailabilityBitfield {
    /// Wrap a bitfield.
    pub fn from(inner: Bitfield) -> (r: AvailabilityBitfield)
        ensures
            r@ == inner@,
    {
        AvailabilityBitfield(inner)
    }
}


/// The weight of bit `i`: one if it is within range and set, else zero.
pub open spec fn bit_at(s: Seq<bool>, i: int) -> int {
    if 0 <= i < s.len() && s[i] {
        1
    } else {
        0
    }
}

/// The byte packing bits `base .. base + 8`, least significant bit first.
pub open spec fn byte_of(s: Seq<bool>, base: int) -> u8 {
    (bit_at(s, base) + 2 * bit_at(s, base + 1) + 4 * bit_at(s, base + 2) + 8 * bit_at(s, base + 3)
        + 16 * bit_at(s, base + 4) + 32 * bit_at(s, base + 5) + 64 * bit_at(s, base + 6) + 128
        * bit_at(s, base + 7)) as u8
}

/// The packed bytes of a bit sequence: one byte per eight bits, the last
/// byte padded with clear bits.
pub open spec fn pack_bits(s: Seq<bool>) -> Seq<u8> {
    Seq::new(((s.len() + 7) / 8) as nat, |j: int| byte_of(s, 8 * j))
}

/// The encoding of a bitfield: its length in bits, compact, then the
/// packed bytes.
pub open spec fn enc_bitfield(s: Seq<bool>) -> Seq<u8> {
    crate::codec::enc_compact_u32(s.len() as u32) + pack_bits(s)
}

/// In a byte assembled from binary digits, each digit is recovered by
/// division: the packing of eight bits into a byte is lossless.
pub proof fn lemma_byte_digits(b: u8, c0: u8, c1: u8, c2: u8, c3: u8, c4: u8, c5: u8, c6: u8, c7: u8)
    requires
        c0 <= 1 && c1 <= 1 && c2 <= 1 && c3 <= 1 && c4 <= 1 && c5 <= 1 && c6 <= 1 && c7 <= 1,
        b == c0 + 2 * c1 + 4 * c2 + 8 * c3 + 16 * c4 + 32 * c5 + 64 * c6 + 128 * c7,
    ensures
        b % 2 == c0,
        (b / 2) % 2 == c1,
        (b / 4) % 2 == c2,
        (b / 8) % 2 == c3,
        (b / 16) % 2 == c4,
        (b / 32) % 2 == c5,
        (b / 64) % 2 == c6,
        (b / 128) % 2 == c7,
{
    assert(b % 2 == c0 && (b / 2) % 2 == c1 && (b / 4) % 2 == c2 && (b / 8) % 2 == c3 && (b / 16)
        % 2 == c4 && (b / 32) % 2 == c5 && (b / 64) % 2 == c6 && (b / 128) % 2 == c7) by (
    bit_vector)
        requires
            c0 <= 1 && c1 <= 1 && c2 <= 1 && c3 <= 1 && c4 <= 1 && c5 <= 1 && c6 <= 1 && c7 <= 1
                && b == c0 + 2 * c1 + 4 * c2 + 8 * c3 + 16 * c4 + 32 * c5 + 64 * c6 + 128 * c7,
    ;
}

/// Two bit sequences of equal length with equal packed bytes are equal.
pub proof fn lemma_pack_bits_injective(a: Seq<bool>, b: Seq<bool>)
    requires
        a.len() == b.len(),
        pack_bits(a) == pack_bits(b),
    ensures
        a == b,
{
    assert forall|i: int| 0 <= i < a.len() implies a[i] == b[i] by {
        let j = i / 8;
        let k = i % 8;
        assert(0 <= k < 8 && i == 8 * j + k);
        assert(0 <= j < pack_bits(a).len()) by (nonlinear_arith)
            requires
                0 <= i < a.len() && j == i / 8 && pack_bits(a).len() == (a.len() + 7) / 8,
        ;
        assert(pack_bits(a)[j] == byte_of(a, 8 * j));
        assert(pack_bits(b)[j] == byte_of(b, 8 * j));
        let ba = byte_of(a, 8 * j);
        lemma_byte_digits(
            ba,
            bit_at(a, 8 * j) as u8,
            bit_at(a, 8 * j + 1) as u8,
            bit_at(a, 8 * j + 2) as u8,
            bit_at(a, 8 * j + 3) as u8,
            bit_at(a, 8 * j + 4) as u8,
            bit_at(a, 8 * j + 5) as u8,
            bit_at(a, 8 * j + 6) as u8,
            bit_at(a, 8 * j + 7) as u8,
        );
        lemma_byte_digits(
            ba,
            bit_at(b, 8 * j) as u8,
            bit_at(b, 8 * j + 1) as u8,
            bit_at(b, 8 * j + 2) as u8,
            bit_at(b, 8 * j + 3) as u8,
            bit_at(b, 8 * j + 4) as u8,
            bit_at(b, 8 * j + 5) as u8,
            bit_at(b, 8 * j + 6) as u8,
            bit_at(b, 8 * j + 7) as u8,
        );
        assert(bit_at(a, i) == bit_at(b, i));
    }
    assert(a =~= b);
}

/// Append the encoding of `b` to `out`.
pub fn encode_bitfield(b: &Bitfield, out: &mut Vec<u8>)
    requires
        b@.len() <= u32::MAX,
    ensures
        final(out)@ == old(out)@ + enc_bitfield(b@),
{
    let ghost s = b@;
    let len = b.bits.len();
    crate::codec::encode_compact_u32(len as u32, out);
    let n_bytes = len / 8 + (if len % 8 != 0 {
        1usize
    } else {
        0usize
    });
    proof {
        assert(n_bytes == (s.len() + 7) / 8) by (nonlinear_arith)
            requires
                len == s.len() && n_bytes == len / 8 + (if len % 8 != 0 {
                    1int
                } else {
                    0int
                }),
        ;
        assert(out@ =~= old(out)@ + crate::codec::enc_compact_u32(s.len() as u32) + pack_bits(
            s,
        ).take(0));
    }
    let mut j: usize = 0;
    while j < n_bytes
        invariant
            s == b@,
            len == s.len(),
            j <= n_bytes,
            n_bytes == pack_bits(s).len(),
            out@ == old(out)@ + crate::codec::enc_compact_u32(s.len() as u32) + pack_bits(s).take(
                j as int,
            ),
        decreases n_bytes - j,
    {
        proof {
            assert(8 * j < 8 * n_bytes);
            assert(8 * n_bytes <= s.len() + 7) by (nonlinear_arith)
                requires
                    n_bytes == (s.len() + 7) / 8,
            ;
        }
        let base = 8 * j;
        let mut byte: u8 = 0;
        if 0 < len - base && b.bits[base] {
            byte = byte + 1;
        }
        if 1 < len - base && b.bits[base + 1] {
            byte = byte + 2;
        }
        if 2 < len - base && b.bits[base + 2] {
            byte = byte + 4;
        }
        if 3 < len - base && b.bits[base + 3] {
            byte = byte + 8;
        }
        if 4 < len - base && b.bits[base + 4] {
            byte = byte + 16;
        }
        if 5 < len - base && b.bits[base + 5] {
            byte = byte + 32;
        }
        if 6 < len - base && b.bits[base + 6] {
            byte = byte + 64;
        }
        if 7 < len - base && b.bits[base + 7] {
            byte = byte + 128;
        }
        proof {
            assert(byte == byte_of(s, 8 * (j as int)));
        }
        out.push(byte);
        proof {
            assert(pack_bits(s).take(j + 1) =~= pack_bits(s).take(j as int).push(
                byte_of(s, 8 * (j as int)),
            ));
            assert(out@ =~= old(out)@ + crate::codec::enc_compact_u32(s.len() as u32) + pack_bits(
                s,
            ).take(j + 1));
        }
        j = j + 1;
    }
    proof {
        assert(pack_bits(s).take(n_bytes as int) =~= pack_bits(s));
        assert(out@ =~= old(out)@ + enc_bitfield(s));
    }
}


/// Byte `jj` of the packed region at `p1` holds the packing of bits
/// `8 * jj ..` of `bits`.
pub open spec fn packed_ok(bytes: Seq<u8>, p1: int, bits: Seq<bool>, jj: int) -> bool {
    bytes[p1 + jj] == byte_of(bits, 8 * jj)
}

/// The digits of `b` at and above position `take` are all zero: the byte
/// carries no set bit in its padding.
pub open spec fn spare_clear(b: u8, take: int) -> bool {
    &&& (take <= 1 ==> (b / 2) % 2 == 0)
    &&& (take <= 2 ==> (b / 4) % 2 == 0)
    &&& (take <= 3 ==> (b / 8) % 2 == 0)
    &&& (take <= 4 ==> (b / 16) % 2 == 0)
    &&& (take <= 5 ==> (b / 32) % 2 == 0)
    &&& (take <= 6 ==> (b / 64) % 2 == 0)
    &&& (take <= 7 ==> (b / 128) % 2 == 0)
}

/// A byte appended digit by digit, with clear padding, packs back to
/// itself.
proof fn lemma_byte_of_digits(s: Seq<bool>, base: int, take: int, b: u8)
    requires
        0 <= base,
        1 <= take <= 8,
        s.len() == base + take,
        spare_clear(b, take),
        s[base] == (b % 2 == 1),
        1 < take ==> s[base + 1] == ((b / 2) % 2 == 1),
        2 < take ==> s[base + 2] == ((b / 4) % 2 == 1),
        3 < take ==> s[base + 3] == ((b / 8) % 2 == 1),
        4 < take ==> s[base + 4] == ((b / 16) % 2 == 1),
        5 < take ==> s[base + 5] == ((b / 32) % 2 == 1),
        6 < take ==> s[base + 6] == ((b / 64) % 2 == 1),
        7 < take ==> s[base + 7] == ((b / 128) % 2 == 1),
    ensures
        byte_of(s, base) == b,
{
    assert(b == b % 2 + 2 * ((b / 2) % 2) + 4 * ((b / 4) % 2) + 8 * ((b / 8) % 2) + 16 * ((b / 16)
        % 2) + 32 * ((b / 32) % 2) + 64 * ((b / 64) % 2) + 128 * ((b / 128) % 2)) by (bit_vector);
    assert(bit_at(s, base) == b % 2);
    assert(bit_at(s, base + 1) == (b / 2) % 2);
    assert(bit_at(s, base + 2) == (b / 4) % 2);
    assert(bit_at(s, base + 3) == (b / 8) % 2);
    assert(bit_at(s, base + 4) == (b / 16) % 2);
    assert(bit_at(s, base + 5) == (b / 32) % 2);
    assert(bit_at(s, base + 6) == (b / 64) % 2);
    assert(bit_at(s, base + 7) == (b / 128) % 2);
}

/// Unpack one byte of a packed bit region into `bits`: push its low
/// `min(remaining, 8)` digits in order, refusing a byte with a set digit
/// in its padding.
#[verifier::rlimit(100)]
fn unpack_byte(bits: &mut Vec<bool>, b: u8, remaining: usize) -> (ok: bool)
    requires
        1 <= remaining,
    ensures
        ({
            let take = if remaining < 8 {
                remaining as int
            } else {
                8int
            };
            &&& (ok <==> spare_clear(b, take))
            &&& (!ok ==> final(bits)@ == old(bits)@)
            &&& (ok ==> final(bits)@.len() == old(bits)@.len() + take)
            &&& (ok ==> final(bits)@.subrange(0, old(bits)@.len() as int) == old(bits)@)
            &&& (ok ==> byte_of(final(bits)@, old(bits)@.len() as int) == b)
        }),
{
    let ghost base = bits@.len() as int;
    let take: usize = if remaining < 8 {
        remaining
    } else {
        8
    };
    let d1 = (b / 2) % 2;
    let d2 = (b / 4) % 2;
    let d3 = (b / 8) % 2;
    let d4 = (b / 16) % 2;
    let d5 = (b / 32) % 2;
    let d6 = (b / 64) % 2;
    let d7 = (b / 128) % 2;
    let spare = (take <= 1 && d1 == 1) || (take <= 2 && d2 == 1) || (take <= 3 && d3 == 1) || (
    take <= 4 && d4 == 1) || (take <= 5 && d5 == 1) || (take <= 6 && d6 == 1) || (take <= 7 && d7
        == 1);
    if spare {
        return false;
    }
    bits.push(b % 2 == 1);
    if 1 < take {
        bits.push(d1 == 1);
    }
    if 2 < take {
        bits.push(d2 == 1);
    }
    if 3 < take {
        bits.push(d3 == 1);
    }
    if 4 < take {
        bits.push(d4 == 1);
    }
    if 5 < take {
        bits.push(d5 == 1);
    }
    if 6 < take {
        bits.push(d6 == 1);
    }
    if 7 < take {
        bits.push(d7 == 1);
    }
    proof {
        assert(bits@.len() == base + take);
        lemma_byte_of_digits(bits@, base, take as int, b);
        assert(bits@.subrange(0, base) =~= old(bits)@);
    }
    true
}

/// No bitfield encoding matches a packed region whose padding carries a
/// set bit.
proof fn lemma_no_bitfield_with_spare(bytes: Seq<u8>, pos: int, p1: int, n: u32, j: int, b: u8)
    requires
        starts_with_at(bytes, pos, crate::codec::enc_compact_u32(n)),
        p1 == pos + crate::codec::enc_compact_u32(n).len(),
        0 <= j,
        8 * j < n,
        0 <= p1 + j < bytes.len(),
        bytes[p1 + j] == b,
        !spare_clear(
            b,
            if n - 8 * j < 8 {
                n - 8 * j
            } else {
                8
            },
        ),
    ensures
        forall|s: Seq<bool>| s.len() <= u32::MAX ==> !starts_with_at(bytes, pos, enc_bitfield(s)),
{
    assert forall|s: Seq<bool>| s.len() <= u32::MAX implies !starts_with_at(
        bytes,
        pos,
        enc_bitfield(s),
    ) by {
        if starts_with_at(bytes, pos, enc_bitfield(s)) {
            lemma_starts_with_concat(
                bytes,
                pos,
                crate::codec::enc_compact_u32(s.len() as u32),
                pack_bits(s),
            );
            crate::codec::lemma_compact_prefix_secure(bytes, pos, s.len() as u32, n);
            assert(s.len() == n);
            assert(0 <= j < pack_bits(s).len()) by (nonlinear_arith)
                requires
                    0 <= j && 8 * j < s.len() && pack_bits(s).len() == (s.len() + 7) / 8,
            ;
            crate::codec::lemma_starts_with_index(bytes, p1, pack_bits(s), j);
            assert(pack_bits(s)[j] == byte_of(s, 8 * j));
            lemma_byte_digits(
                b,
                bit_at(s, 8 * j) as u8,
                bit_at(s, 8 * j + 1) as u8,
                bit_at(s, 8 * j + 2) as u8,
                bit_at(s, 8 * j + 3) as u8,
                bit_at(s, 8 * j + 4) as u8,
                bit_at(s, 8 * j + 5) as u8,
                bit_at(s, 8 * j + 6) as u8,
                bit_at(s, 8 * j + 7) as u8,
            );
        }
    }
}

/// Growing a bit sequence does not change the bytes already packed.
proof fn lemma_byte_of_stable(a: Seq<bool>, b: Seq<bool>, jj: int)
    requires
        0 <= jj,
        8 * jj + 8 <= a.len(),
        a.len() <= b.len(),
        forall|i: int| 0 <= i < a.len() ==> a[i] == b[i],
    ensures
        byte_of(b, 8 * jj) == byte_of(a, 8 * jj),
{
}

/// Read a bitfield: a compact bit count, then its packed bytes.
///
/// Fails exactly when no bitfield's encoding begins there: a bad count
/// prefix, fewer packed bytes than the count announces, or a set bit in
/// the padding of the last byte.
pub fn decode_bitfield(bytes: &Vec<u8>, pos: usize) -> (r: Option<(Bitfield, usize)>)
    ensures
        r matches Some(p) ==> pos <= p.1 <= bytes@.len() && p.0@.len() <= u32::MAX
            && bytes@.subrange(pos as int, p.1 as int) == enc_bitfield(p.0@),
        r is None ==> forall|s: Seq<bool>|
            s.len() <= u32::MAX ==> !starts_with_at(bytes@, pos as int, enc_bitfield(s)),
{
    let (n, p1) = match crate::codec::decode_compact_u32(bytes, pos) {
        Some(x) => x,
        None => {
            proof {
                assert forall|s: Seq<bool>| s.len() <= u32::MAX implies !starts_with_at(
                    bytes@,
                    pos as int,
                    enc_bitfield(s),
                ) by {
                    if starts_with_at(bytes@, pos as int, enc_bitfield(s)) {
                        lemma_starts_with_concat(
                            bytes@,
                            pos as int,
                            crate::codec::enc_compact_u32(s.len() as u32),
                            pack_bits(s),
                        );
                    }
                }
            }
            return None;
        },
    };
    let nu = n as usize;
    let n_bytes = nu / 8 + (if nu % 8 != 0 {
        1usize
    } else {
        0usize
    });
    proof {
        assert(n_bytes == (nu + 7) / 8) by (nonlinear_arith)
            requires
                n_bytes == nu / 8 + (if nu % 8 != 0 {
                    1int
                } else {
                    0int
                }),
        ;
        assert(starts_with_at(bytes@, pos as int, crate::codec::enc_compact_u32(n)));
    }
    if bytes.len() - p1 < n_bytes {
        proof {
            assert forall|s: Seq<bool>| s.len() <= u32::MAX implies !starts_with_at(
                bytes@,
                pos as int,
                enc_bitfield(s),
            ) by {
                if starts_with_at(bytes@, pos as int, enc_bitfield(s)) {
                    lemma_starts_with_concat(
                        bytes@,
                        pos as int,
                        crate::codec::enc_compact_u32(s.len() as u32),
                        pack_bits(s),
                    );
                    crate::codec::lemma_compact_prefix_secure(
                        bytes@,
                        pos as int,
                        s.len() as u32,
                        n,
                    );
                    assert(s.len() == n);
                    assert(pack_bits(s).len() == n_bytes);
                    assert(p1 + n_bytes <= bytes@.len());
                }
            }
        }
        return None;
    }
    let mut bits: Vec<bool> = Vec::new();
    let mut j: usize = 0;
    while j < n_bytes
        invariant
            nu == n,
            n_bytes == (nu + 7) / 8,
            j <= n_bytes,
            pos <= p1,
            p1 + n_bytes <= bytes@.len(),
            bytes@.len() <= usize::MAX,
            starts_with_at(bytes@, pos as int, crate::codec::enc_compact_u32(n)),
            p1 == pos + crate::codec::enc_compact_u32(n).len(),
            bits@.len() == (if 8 * j <= nu {
                8 * j
            } else {
                nu as int
            }),
            forall|jj: int| 0 <= jj < j ==> #[trigger] packed_ok(bytes@, p1 as int, bits@, jj),
        decreases n_bytes - j,
    {
        proof {
            assert(8 * j < nu && nu - 8 * j >= 8 * (n_bytes - j) - 7) by (nonlinear_arith)
                requires
                    j < n_bytes && n_bytes == nu / 8 + (if nu % 8 != 0 {
                        1int
                    } else {
                        0int
                    }),
            ;
        }
        let remaining = nu - 8 * j;
        let b = bytes[p1 + j];
        let ghost old_bits = bits@;
        let ok = unpack_byte(&mut bits, b, remaining);
        if !ok {
            proof {
                lemma_no_bitfield_with_spare(bytes@, pos as int, p1 as int, n, j as int, b);
            }
            return None;
        }
        proof {
            assert(byte_of(bits@, 8 * (j as int)) == b);
            assert(packed_ok(bytes@, p1 as int, bits@, j as int));
            assert forall|jj: int| 0 <= jj < j implies #[trigger] packed_ok(
                bytes@,
                p1 as int,
                bits@,
                jj,
            ) by {
                assert(packed_ok(bytes@, p1 as int, old_bits, jj));
                assert(8 * jj + 8 <= old_bits.len()) by (nonlinear_arith)
                    requires
                        0 <= jj < j && old_bits.len() == 8 * (j as int),
                ;
                assert(forall|i: int|
                    0 <= i < old_bits.len() ==> old_bits[i] == bits@.subrange(
                        0,
                        old_bits.len() as int,
                    )[i]);
                lemma_byte_of_stable(old_bits, bits@, jj);
            }
        }
        j = j + 1;
    }
    proof {
        assert(bits@.len() == nu) by (nonlinear_arith)
            requires
                bits@.len() == (if 8 * (n_bytes as int) <= nu {
                    8 * (n_bytes as int)
                } else {
                    nu as int
                }) && n_bytes == (nu + 7) / 8,
        ;
        assert(pack_bits(bits@).len() == n_bytes);
        assert forall|jj: int| 0 <= jj < n_bytes implies bytes@.subrange(
            p1 as int,
            (p1 + n_bytes) as int,
        )[jj] == pack_bits(bits@)[jj] by {
            assert(packed_ok(bytes@, p1 as int, bits@, jj));
        }
        assert(bytes@.subrange(p1 as int, (p1 + n_bytes) as int) =~= pack_bits(bits@));
        assert(starts_with_at(bytes@, p1 as int, pack_bits(bits@)));
        lemma_concat_starts_with(
            bytes@,
            pos as int,
            crate::codec::enc_compact_u32(n),
            pack_bits(bits@),
        );
        assert(bytes@.subrange(pos as int, (p1 + n_bytes) as int) == enc_bitfield(bits@));
    }
    Some((Bitfield { bits }, p1 + n_bytes))
}

} // verus!
