//! The wire codec for the data model: little-endian fixed-width integers,
//! compact length prefixes, and length-prefixed byte strings.
//!
//! Every encoder appends to an output buffer and is specified against a
//! spec-level encoding function; every decoder consumes a prefix of its
//! input and is exact: it succeeds precisely on the inputs that begin with
//! the encoding of some value, and the bytes it consumes re-encode the
//! value it returns.

use vstd::prelude::*;

verus! {

/// Spec-level encoding of a `u32` as four little-endian bytes.
pub open spec fn enc_u32(v: u32) -> Seq<u8> {
    seq![
        (v % 256) as u8,
        ((v / 256) % 256) as u8,
        ((v / 0x10000) % 256) as u8,
        ((v / 0x1000000) % 256) as u8,
    ]
}

/// A value is recovered from its four little-endian bytes.
pub proof fn lemma_enc_u32_inverse(v: u32)
    ensures
        v == enc_u32(v)[0] + 0x100 * (enc_u32(v)[1] as int) + 0x10000 * (enc_u32(v)[2] as int)
            + 0x1000000 * (enc_u32(v)[3] as int),
{
    assert(v == (v % 256) + 0x100 * ((v / 256) % 256) + 0x10000 * ((v / 0x10000) % 256)
        + 0x1000000 * ((v / 0x1000000) % 256)) by (bit_vector);
}

/// The four-byte encoding is unambiguous.
pub proof fn lemma_enc_u32_injective(v: u32, w: u32)
    requires
        enc_u32(v) == enc_u32(w),
    ensures
        v == w,
{
    lemma_enc_u32_inverse(v);
    lemma_enc_u32_inverse(w);
    assert(enc_u32(v)[0] == enc_u32(w)[0]);
    assert(enc_u32(v)[1] == enc_u32(w)[1]);
    assert(enc_u32(v)[2] == enc_u32(w)[2]);
    assert(enc_u32(v)[3] == enc_u32(w)[3]);
}

/// Append the four little-endian bytes of `v` to `out`.
pub fn encode_u32(v: u32, out: &mut Vec<u8>)
    ensures
        final(out)@ == old(out)@ + enc_u32(v),
{
    out.push((v % 256) as u8);
    out.push(((v / 256) % 256) as u8);
    out.push(((v / 0x10000) % 256) as u8);
    out.push(((v / 0x1000000) % 256) as u8);
    assert(out@ =~= old(out)@ + enc_u32(v));
}

/// Read four little-endian bytes starting at `pos`.
///
/// Fails exactly when fewer than four bytes remain.
pub fn decode_u32(bytes: &Vec<u8>, pos: usize) -> (r: Option<(u32, usize)>)
    ensures
        r matches Some(p) ==> p.1 == pos + 4 && p.1 <= bytes@.len()
            && bytes@.subrange(pos as int, p.1 as int) == enc_u32(p.0),
        r is None ==> bytes@.len() < pos + 4,
{
    if bytes.len() < 4 || pos > bytes.len() - 4 {
        return None;
    }
    let b0 = bytes[pos];
    let b1 = bytes[pos + 1];
    let b2 = bytes[pos + 2];
    let b3 = bytes[pos + 3];
    let v: u32 = b0 as u32 + (b1 as u32) * 0x100 + (b2 as u32) * 0x10000 + (b3 as u32) * 0x1000000;
    proof {
        assert(v % 256 == b0 && (v / 256) % 256 == b1 && (v / 0x10000) % 256 == b2
            && (v / 0x1000000) % 256 == b3) by (bit_vector)
            requires v == b0 + (b1 as u32) * 0x100 + (b2 as u32) * 0x10000 + (b3 as u32) * 0x1000000;
        assert(bytes@.subrange(pos as int, pos + 4 as int) =~= enc_u32(v));
    }
    Some((v, pos + 4))
}

/// Does `p` occur as the bytes of `s` starting at `pos`?
pub open spec fn starts_with_at(s: Seq<u8>, pos: int, p: Seq<u8>) -> bool {
    0 <= pos && pos + p.len() <= s.len() && s.subrange(pos, pos + p.len()) == p
}

/// A match of `p` at `pos` pins down each byte of `s` under it.
pub proof fn lemma_starts_with_index(s: Seq<u8>, pos: int, p: Seq<u8>, i: int)
    requires
        starts_with_at(s, pos, p),
        0 <= i < p.len(),
    ensures
        s[pos + i] == p[i],
{
    assert(s.subrange(pos, pos + p.len())[i] == p[i]);
}

/// Splitting a match of a concatenation into matches of its two halves.
pub proof fn lemma_starts_with_concat(s: Seq<u8>, pos: int, a: Seq<u8>, b: Seq<u8>)
    requires
        starts_with_at(s, pos, a + b),
    ensures
        starts_with_at(s, pos, a),
        starts_with_at(s, pos + a.len(), b),
{
    let ab = a + b;
    assert forall|i: int| 0 <= i < ab.len() implies s[pos + i] == ab[i] by {
        lemma_starts_with_index(s, pos, ab, i);
    }
    assert(s.subrange(pos, pos + a.len()) =~= a);
    assert forall|j: int| 0 <= j < b.len() implies s[pos + a.len() + j] == b[j] by {
        lemma_starts_with_index(s, pos, ab, a.len() + j);
        assert(ab[a.len() + j] == b[j]);
    }
    assert(s.subrange(pos + a.len(), pos + a.len() + b.len()) =~= b);
}

/// Joining matches of two adjacent pieces into a match of their concatenation.
pub proof fn lemma_concat_starts_with(s: Seq<u8>, pos: int, a: Seq<u8>, b: Seq<u8>)
    requires
        starts_with_at(s, pos, a),
        starts_with_at(s, pos + a.len(), b),
    ensures
        starts_with_at(s, pos, a + b),
{
    assert forall|i: int| 0 <= i < a.len() implies s[pos + i] == a[i] by {
        lemma_starts_with_index(s, pos, a, i);
    }
    assert forall|i: int| 0 <= i < b.len() implies s[pos + a.len() + i] == b[i] by {
        lemma_starts_with_index(s, pos + a.len(), b, i);
    }
    assert(s.subrange(pos, pos + a.len() + b.len()) =~= a + b);
}

/// Spec-level compact (variable-width) encoding of a `u32`, used for
/// lengths, counts and small indices: the low two bits of the first byte
/// select the width (one, two or four bytes holding the value shifted left
/// by two, or a marker byte followed by the four-byte value).
pub open spec fn enc_compact_u32(v: u32) -> Seq<u8> {
    if v < 64 {
        seq![(v * 4) as u8]
    } else if v < 16384 {
        seq![((v * 4 + 1) % 256) as u8, ((v * 4 + 1) / 256) as u8]
    } else if v < 0x40000000 {
        enc_u32((v * 4 + 2) as u32)
    } else {
        seq![3u8] + enc_u32(v)
    }
}

/// The width of the compact encoding of `v`.
pub open spec fn compact_len(v: u32) -> int {
    if v < 64 {
        1
    } else if v < 16384 {
        2
    } else if v < 0x40000000 {
        4
    } else {
        5
    }
}

/// The first byte of a compact encoding, as its numeric value.
pub open spec fn compact_first_byte(v: u32) -> int {
    if v < 64 {
        v * 4
    } else if v < 16384 {
        (v * 4 + 1) % 256
    } else if v < 0x40000000 {
        (v * 4 + 2) % 256
    } else {
        3
    }
}

/// The first byte of a compact encoding announces the width of the whole:
/// its value modulo four tells which of the four ranges the value is in.
pub proof fn lemma_compact_shape(v: u32)
    ensures
        enc_compact_u32(v).len() == compact_len(v),
        enc_compact_u32(v)[0] == compact_first_byte(v),
        compact_first_byte(v) % 4 == (if v < 64 {
            0int
        } else if v < 16384 {
            1int
        } else if v < 0x40000000 {
            2int
        } else {
            3int
        }),
{
    if v < 64 {
        assert(v * 4 < 256);
        assert((v * 4) % 4 == 0) by (nonlinear_arith);
    } else if v < 16384 {
        assert(((v * 4 + 1) % 256) % 4 == 1) by (bit_vector)
            requires
                64 <= v < 16384,
        ;
    } else if v < 0x40000000 {
        let w: u32 = (v * 4 + 2) as u32;
        assert(w == v * 4 + 2);
        assert((w % 256) % 4 == 2) by (bit_vector)
            requires
                16384 <= v < 0x40000000 && w == (v * 4 + 2) as u32,
        ;
        assert(enc_u32(w)[0] == (w % 256) as u8);
    } else {
        assert(enc_compact_u32(v)[0] == 3u8);
    }
}

/// Two values whose compact encodings begin at the same place in the same
/// byte string are the same value: the encoding is prefix-unambiguous.
pub proof fn lemma_compact_prefix_secure(s: Seq<u8>, pos: int, v: u32, w: u32)
    requires
        starts_with_at(s, pos, enc_compact_u32(v)),
        starts_with_at(s, pos, enc_compact_u32(w)),
    ensures
        v == w,
{
    lemma_compact_shape(v);
    lemma_compact_shape(w);
    lemma_starts_with_index(s, pos, enc_compact_u32(v), 0);
    lemma_starts_with_index(s, pos, enc_compact_u32(w), 0);
    assert(compact_first_byte(v) == compact_first_byte(w));
    assert(compact_first_byte(v) % 4 == compact_first_byte(w) % 4);
    if v < 64 {
        assert(v * 4 == w * 4);
        assert(v == w) by (nonlinear_arith)
            requires
                v * 4 == w * 4,
        ;
    } else if v < 16384 {
        lemma_starts_with_index(s, pos, enc_compact_u32(v), 1);
        lemma_starts_with_index(s, pos, enc_compact_u32(w), 1);
        assert((v * 4 + 1) % 256 == (w * 4 + 1) % 256);
        assert((v * 4 + 1) / 256 == (w * 4 + 1) / 256);
        assert(v * 4 + 1 == 256 * ((v * 4 + 1) / 256) + (v * 4 + 1) % 256);
        assert(w * 4 + 1 == 256 * ((w * 4 + 1) / 256) + (w * 4 + 1) % 256);
        assert(v == w) by (nonlinear_arith)
            requires
                v * 4 + 1 == w * 4 + 1,
        ;
    } else if v < 0x40000000 {
        let ev = enc_u32((v * 4 + 2) as u32);
        let ew = enc_u32((w * 4 + 2) as u32);
        assert forall|i: int| 0 <= i < 4 implies ev[i] == ew[i] by {
            lemma_starts_with_index(s, pos, enc_compact_u32(v), i);
            lemma_starts_with_index(s, pos, enc_compact_u32(w), i);
        }
        assert(ev =~= ew);
        lemma_enc_u32_injective((v * 4 + 2) as u32, (w * 4 + 2) as u32);
        assert(v * 4 + 2 == w * 4 + 2);
        assert(v == w) by (nonlinear_arith)
            requires
                v * 4 + 2 == w * 4 + 2,
        ;
    } else {
        assert forall|i: int| 0 <= i < 4 implies enc_u32(v)[i] == enc_u32(w)[i] by {
            lemma_starts_with_index(s, pos, enc_compact_u32(v), i + 1);
            lemma_starts_with_index(s, pos, enc_compact_u32(w), i + 1);
            assert(enc_compact_u32(v)[i + 1] == enc_u32(v)[i]);
            assert(enc_compact_u32(w)[i + 1] == enc_u32(w)[i]);
        }
        assert(enc_u32(v) =~= enc_u32(w));
        lemma_enc_u32_injective(v, w);
    }
}

/// Append the compact encoding of `v` to `out`.
pub fn encode_compact_u32(v: u32, out: &mut Vec<u8>)
    ensures
        final(out)@ == old(out)@ + enc_compact_u32(v),
{
    if v < 64 {
        out.push((v * 4) as u8);
        assert(out@ =~= old(out)@ + enc_compact_u32(v));
    } else if v < 16384 {
        let w: u32 = v * 4 + 1;
        out.push((w % 256) as u8);
        out.push((w / 256) as u8);
        assert(out@ =~= old(out)@ + enc_compact_u32(v));
    } else if v < 0x40000000 {
        let w: u32 = v * 4 + 2;
        encode_u32(w, out);
        assert(out@ =~= old(out)@ + enc_compact_u32(v));
    } else {
        out.push(3u8);
        encode_u32(v, out);
        assert(out@ =~= old(out)@ + enc_compact_u32(v));
    }
}

/// Read a compact-encoded `u32` starting at `pos`.
///
/// Fails exactly when no value's compact encoding begins there: too few
/// bytes for the width announced by the first byte, a value stored wider
/// than its canonical width, or a width marker beyond four bytes.
pub fn decode_compact_u32(bytes: &Vec<u8>, pos: usize) -> (r: Option<(u32, usize)>)
    ensures
        r matches Some(p) ==> pos <= p.1 <= bytes@.len()
            && bytes@.subrange(pos as int, p.1 as int) == enc_compact_u32(p.0),
        r is None ==> forall|w: u32| !starts_with_at(bytes@, pos as int, enc_compact_u32(w)),
{
    let n = bytes.len();
    if pos >= n {
        proof {
            assert forall|w: u32| !starts_with_at(bytes@, pos as int, enc_compact_u32(w)) by {
                lemma_compact_shape(w);
            }
        }
        return None;
    }
    let b0 = bytes[pos];
    let ghost b0u: u32 = b0 as u32;
    let tag = b0 % 4;
    if tag == 0 {
        let v: u32 = (b0 / 4) as u32;
        proof {
            assert(b0 == 4 * (b0 / 4) + b0 % 4);
            assert(v < 64 && v * 4 == b0);
            assert(bytes@.subrange(pos as int, pos + 1 as int) =~= enc_compact_u32(v));
        }
        Some((v, pos + 1))
    } else if tag == 1 {
        if n - pos < 2 {
            proof {
                assert forall|w: u32| !starts_with_at(bytes@, pos as int, enc_compact_u32(w)) by {
                    lemma_compact_shape(w);
                    if starts_with_at(bytes@, pos as int, enc_compact_u32(w)) {
                        lemma_starts_with_index(bytes@, pos as int, enc_compact_u32(w), 0);
                        assert(compact_first_byte(w) % 4 == 1);
                        assert(64 <= w < 16384);
                        assert(pos + 2 <= bytes@.len());
                    }
                }
            }
            return None;
        }
        let b1 = bytes[pos + 1];
        let ghost b1u: u32 = b1 as u32;
        let full: u32 = b0 as u32 + 256 * (b1 as u32);
        let v: u32 = full / 4;
        proof {
            assert(full % 256 == b0u && full / 256 == b1u) by (bit_vector)
                requires
                    full == b0u + 256 * b1u && b0u < 256 && b1u < 256,
            ;
            assert(b0u % 4 == 1);
            assert(full % 4 == 1) by (bit_vector)
                requires
                    full % 256 == b0u && b0u % 4 == 1,
            ;
            assert(full == 4 * (full / 4) + full % 4);
            assert(full == 4 * v + 1);
        }
        if v < 64 {
            proof {
                assert forall|w: u32| !starts_with_at(bytes@, pos as int, enc_compact_u32(w)) by {
                    lemma_compact_shape(w);
                    if starts_with_at(bytes@, pos as int, enc_compact_u32(w)) {
                        lemma_starts_with_index(bytes@, pos as int, enc_compact_u32(w), 0);
                        assert(compact_first_byte(w) % 4 == 1);
                        assert(64 <= w < 16384);
                        lemma_starts_with_index(bytes@, pos as int, enc_compact_u32(w), 1);
                        assert((w * 4 + 1) % 256 == b0u && (w * 4 + 1) / 256 == b1u);
                        assert(w * 4 + 1 == 256 * ((w * 4 + 1) / 256) + (w * 4 + 1) % 256);
                        assert(w * 4 + 1 == full);
                        assert(w == v) by (nonlinear_arith)
                            requires
                                w * 4 + 1 == full && full == 4 * v + 1,
                        ;
                    }
                }
            }
            return None;
        }
        proof {
            assert(full < 65536);
            assert(v < 16384) by (nonlinear_arith)
                requires
                    v == full / 4 && full < 65536,
            ;
            assert((v * 4 + 1) % 256 == b0 && (v * 4 + 1) / 256 == b1);
            assert(bytes@.subrange(pos as int, pos + 2 as int) =~= enc_compact_u32(v));
        }
        Some((v, pos + 2))
    } else if tag == 2 {
        match decode_u32(bytes, pos) {
            Some((full, end)) => {
                let v: u32 = full / 4;
                proof {
                    assert(starts_with_at(bytes@, pos as int, enc_u32(full)));
                    lemma_starts_with_index(bytes@, pos as int, enc_u32(full), 0);
                    assert(full % 256 == b0u);
                    assert(full % 4 == 2) by (bit_vector)
                        requires
                            full % 256 == b0u && b0u % 4 == 2,
                    ;
                    assert(full == 4 * (full / 4) + full % 4);
                    assert(full == 4 * v + 2);
                }
                if v < 16384 {
                    proof {
                        assert forall|w: u32| !starts_with_at(
                            bytes@,
                            pos as int,
                            enc_compact_u32(w),
                        ) by {
                            lemma_compact_shape(w);
                            if starts_with_at(bytes@, pos as int, enc_compact_u32(w)) {
                                lemma_starts_with_index(bytes@, pos as int, enc_compact_u32(w), 0);
                                assert(compact_first_byte(w) % 4 == 2);
                                assert(16384 <= w < 0x40000000);
                                let wf: u32 = (w * 4 + 2) as u32;
                                assert forall|i: int| 0 <= i < 4 implies enc_u32(wf)[i] == enc_u32(
                                    full,
                                )[i] by {
                                    lemma_starts_with_index(
                                        bytes@,
                                        pos as int,
                                        enc_compact_u32(w),
                                        i,
                                    );
                                    lemma_starts_with_index(bytes@, pos as int, enc_u32(full), i);
                                }
                                assert(enc_u32(wf) =~= enc_u32(full));
                                lemma_enc_u32_injective(wf, full);
                                assert(w * 4 + 2 == full);
                                assert(w == v) by (nonlinear_arith)
                                    requires
                                        w * 4 + 2 == full && full == 4 * v + 2,
                                ;
                            }
                        }
                    }
                    None
                } else {
                    proof {
                        assert(v < 0x40000000) by (nonlinear_arith)
                            requires
                                v == full / 4 && full < 0x100000000,
                        ;
                        assert((v * 4 + 2) as u32 == full);
                        assert(bytes@.subrange(pos as int, end as int) =~= enc_compact_u32(v));
                    }
                    Some((v, end))
                }
            },
            None => {
                proof {
                    assert forall|w: u32| !starts_with_at(bytes@, pos as int, enc_compact_u32(w))
                        by {
                        lemma_compact_shape(w);
                        if starts_with_at(bytes@, pos as int, enc_compact_u32(w)) {
                            lemma_starts_with_index(bytes@, pos as int, enc_compact_u32(w), 0);
                            assert(compact_first_byte(w) % 4 == 2);
                            assert(16384 <= w < 0x40000000);
                            assert(pos + 4 <= bytes@.len());
                        }
                    }
                }
                None
            },
        }
    } else {
        if b0 != 3 {
            proof {
                assert forall|w: u32| !starts_with_at(bytes@, pos as int, enc_compact_u32(w)) by {
                    lemma_compact_shape(w);
                    if starts_with_at(bytes@, pos as int, enc_compact_u32(w)) {
                        lemma_starts_with_index(bytes@, pos as int, enc_compact_u32(w), 0);
                        assert(compact_first_byte(w) % 4 == 3);
                        assert(w >= 0x40000000);
                        assert(compact_first_byte(w) == 3);
                    }
                }
            }
            return None;
        }
        match decode_u32(bytes, pos + 1) {
            Some((v, end)) => {
                proof {
                    assert(starts_with_at(bytes@, pos + 1 as int, enc_u32(v)));
                }
                if v < 0x40000000 {
                    proof {
                        assert forall|w: u32| !starts_with_at(
                            bytes@,
                            pos as int,
                            enc_compact_u32(w),
                        ) by {
                            lemma_compact_shape(w);
                            if starts_with_at(bytes@, pos as int, enc_compact_u32(w)) {
                                lemma_starts_with_index(bytes@, pos as int, enc_compact_u32(w), 0);
                                assert(compact_first_byte(w) % 4 == 3);
                                assert(w >= 0x40000000);
                                assert forall|i: int| 0 <= i < 4 implies enc_u32(w)[i] == enc_u32(
                                    v,
                                )[i] by {
                                    lemma_starts_with_index(
                                        bytes@,
                                        pos as int,
                                        enc_compact_u32(w),
                                        i + 1,
                                    );
                                    lemma_starts_with_index(
                                        bytes@,
                                        pos + 1 as int,
                                        enc_u32(v),
                                        i,
                                    );
                                    assert(enc_compact_u32(w)[i + 1] == enc_u32(w)[i]);
                                }
                                assert(enc_u32(w) =~= enc_u32(v));
                                lemma_enc_u32_injective(w, v);
                            }
                        }
                    }
                    None
                } else {
                    proof {
                        assert forall|i: int| 0 <= i < 4 implies bytes@[pos + 1 + i] == enc_u32(
                            v,
                        )[i] by {
                            lemma_starts_with_index(bytes@, pos + 1 as int, enc_u32(v), i);
                        }
                        assert(bytes@.subrange(pos as int, end as int) =~= enc_compact_u32(v));
                    }
                    Some((v, end))
                }
            },
            None => {
                proof {
                    assert forall|w: u32| !starts_with_at(bytes@, pos as int, enc_compact_u32(w))
                        by {
                        lemma_compact_shape(w);
                        if starts_with_at(bytes@, pos as int, enc_compact_u32(w)) {
                            lemma_starts_with_index(bytes@, pos as int, enc_compact_u32(w), 0);
                            assert(compact_first_byte(w) % 4 == 3);
                            assert(w >= 0x40000000);
                            assert(pos + 5 <= bytes@.len());
                        }
                    }
                }
                None
            },
        }
    }
}


/// Spec-level encoding of a single byte: itself.
pub open spec fn enc_u8(v: u8) -> Seq<u8> {
    seq![v]
}

/// Append the byte `v` to `out`.
pub fn encode_u8(v: u8, out: &mut Vec<u8>)
    ensures
        final(out)@ == old(out)@ + enc_u8(v),
{
    out.push(v);
    assert(out@ =~= old(out)@ + enc_u8(v));
}

/// Read one byte starting at `pos`. Fails exactly when none remains.
pub fn decode_u8(bytes: &Vec<u8>, pos: usize) -> (r: Option<(u8, usize)>)
    ensures
        r matches Some(p) ==> p.1 == pos + 1 && p.1 <= bytes@.len()
            && bytes@.subrange(pos as int, p.1 as int) == enc_u8(p.0),
        r is None ==> bytes@.len() < pos + 1,
{
    if pos >= bytes.len() {
        return None;
    }
    let b = bytes[pos];
    proof {
        assert(bytes@.subrange(pos as int, pos + 1 as int) =~= enc_u8(b));
    }
    Some((b, pos + 1))
}

/// Spec-level encoding of a byte string: its length, compact, then its bytes.
pub open spec fn enc_bytes(s: Seq<u8>) -> Seq<u8> {
    enc_compact_u32(s.len() as u32) + s
}

/// Two byte strings whose encodings begin at the same place in the same
/// byte string are equal: the length prefix makes the format unambiguous.
pub proof fn lemma_bytes_prefix_secure(s: Seq<u8>, pos: int, a: Seq<u8>, b: Seq<u8>)
    requires
        a.len() <= u32::MAX,
        b.len() <= u32::MAX,
        starts_with_at(s, pos, enc_bytes(a)),
        starts_with_at(s, pos, enc_bytes(b)),
    ensures
        a == b,
{
    let la: u32 = a.len() as u32;
    let lb: u32 = b.len() as u32;
    lemma_starts_with_concat(s, pos, enc_compact_u32(la), a);
    lemma_starts_with_concat(s, pos, enc_compact_u32(lb), b);
    lemma_compact_prefix_secure(s, pos, la, lb);
    let k = enc_compact_u32(la).len() as int;
    assert forall|i: int| 0 <= i < a.len() implies a[i] == b[i] by {
        lemma_starts_with_index(s, pos + k, a, i);
        lemma_starts_with_index(s, pos + k, b, i);
    }
    assert(a =~= b);
}

/// Append the length-prefixed encoding of `v` to `out`.
pub fn encode_bytes(v: &Vec<u8>, out: &mut Vec<u8>)
    requires
        v@.len() <= u32::MAX,
    ensures
        final(out)@ == old(out)@ + enc_bytes(v@),
{
    encode_compact_u32(v.len() as u32, out);
    out.extend_from_slice(v.as_slice());
    assert(out@ =~= old(out)@ + enc_bytes(v@));
}

/// Read a length-prefixed byte string starting at `pos`.
///
/// Fails exactly when no byte string's encoding begins there: a bad length
/// prefix, or fewer bytes remaining than the length announces.
pub fn decode_bytes(bytes: &Vec<u8>, pos: usize) -> (r: Option<(Vec<u8>, usize)>)
    ensures
        r matches Some(p) ==> pos <= p.1 <= bytes@.len() && p.0@.len() <= u32::MAX
            && bytes@.subrange(pos as int, p.1 as int) == enc_bytes(p.0@),
        r is None ==> forall|s: Seq<u8>|
            s.len() <= u32::MAX ==> !starts_with_at(bytes@, pos as int, enc_bytes(s)),
{
    match decode_compact_u32(bytes, pos) {
        None => {
            proof {
                assert forall|s: Seq<u8>| s.len() <= u32::MAX implies !starts_with_at(
                    bytes@,
                    pos as int,
                    enc_bytes(s),
                ) by {
                    if starts_with_at(bytes@, pos as int, enc_bytes(s)) {
                        lemma_starts_with_concat(
                            bytes@,
                            pos as int,
                            enc_compact_u32(s.len() as u32),
                            s,
                        );
                    }
                }
            }
            None
        },
        Some((m, p1)) => {
            let mu = m as usize;
            if bytes.len() - p1 < mu {
                proof {
                    assert(starts_with_at(bytes@, pos as int, enc_compact_u32(m)));
                    assert forall|s: Seq<u8>| s.len() <= u32::MAX implies !starts_with_at(
                        bytes@,
                        pos as int,
                        enc_bytes(s),
                    ) by {
                        if starts_with_at(bytes@, pos as int, enc_bytes(s)) {
                            let ls: u32 = s.len() as u32;
                            lemma_starts_with_concat(bytes@, pos as int, enc_compact_u32(ls), s);
                            lemma_compact_prefix_secure(bytes@, pos as int, ls, m);
                            assert(pos + enc_compact_u32(m).len() + s.len() <= bytes@.len());
                        }
                    }
                }
                return None;
            }
            let mut v: Vec<u8> = Vec::new();
            let mut i: usize = 0;
            while i < mu
                invariant
                    i <= mu,
                    p1 + mu <= bytes@.len(),
                    bytes@.len() <= usize::MAX,
                    v@ == bytes@.subrange(p1 as int, p1 + i as int),
                decreases mu - i,
            {
                v.push(bytes[p1 + i]);
                proof {
                    assert(v@ =~= bytes@.subrange(p1 as int, p1 + (i + 1) as int));
                }
                i = i + 1;
            }
            let end = p1 + mu;
            proof {
                assert(starts_with_at(bytes@, pos as int, enc_compact_u32(m)));
                assert(v@.len() == m);
                assert(starts_with_at(bytes@, pos + enc_compact_u32(m).len(), v@));
                lemma_concat_starts_with(bytes@, pos as int, enc_compact_u32(m), v@);
                assert(bytes@.subrange(pos as int, end as int) == enc_bytes(v@));
            }
            Some((v, end))
        },
    }
}


/// Powers of 256, for bounding little-endian values by their width.
pub open spec fn pow256(k: nat) -> int
    decreases k,
{
    if k == 0 {
        1
    } else {
        256 * pow256((k - 1) as nat)
    }
}

/// Spec-level little-endian encoding of a value into `k` bytes.
pub open spec fn le_bytes(v: int, k: nat) -> Seq<u8>
    decreases k,
{
    if k == 0 {
        Seq::empty()
    } else {
        seq![(v % 256) as u8] + le_bytes(v / 256, (k - 1) as nat)
    }
}

/// Spec-level encoding of a `u128` as sixteen little-endian bytes.
pub open spec fn enc_u128(v: u128) -> Seq<u8> {
    le_bytes(v as int, 16)
}

/// A value below `pow256(k)` is recovered from its `k` little-endian bytes.
pub proof fn lemma_le_bytes_injective(v: int, w: int, k: nat)
    requires
        0 <= v < pow256(k),
        0 <= w < pow256(k),
        le_bytes(v, k) == le_bytes(w, k),
    ensures
        v == w,
    decreases k,
{
    if k > 0 {
        let p = pow256((k - 1) as nat);
        assert(p > 0) by {
            lemma_pow256_positive((k - 1) as nat);
        }
        assert(le_bytes(v, k) == seq![(v % 256) as u8] + le_bytes(v / 256, (k - 1) as nat));
        assert(le_bytes(w, k) == seq![(w % 256) as u8] + le_bytes(w / 256, (k - 1) as nat));
        assert(le_bytes(v, k)[0] == (v % 256) as u8);
        assert(le_bytes(w, k)[0] == (w % 256) as u8);
        assert(0 <= v % 256 < 256 && 0 <= w % 256 < 256);
        assert(v % 256 == w % 256);
        assert(le_bytes(v, k).skip(1) =~= le_bytes(v / 256, (k - 1) as nat));
        assert(le_bytes(w, k).skip(1) =~= le_bytes(w / 256, (k - 1) as nat));
        assert(v / 256 < p) by (nonlinear_arith)
            requires
                0 <= v && v < 256 * p,
        ;
        assert(w / 256 < p) by (nonlinear_arith)
            requires
                0 <= w && w < 256 * p,
        ;
        lemma_le_bytes_injective(v / 256, w / 256, (k - 1) as nat);
        assert(v == 256 * (v / 256) + v % 256);
        assert(w == 256 * (w / 256) + w % 256);
    }
}

/// A little-endian encoding has exactly its requested width.
pub proof fn lemma_le_bytes_len(v: int, k: nat)
    ensures
        le_bytes(v, k).len() == k,
    decreases k,
{
    if k > 0 {
        lemma_le_bytes_len(v / 256, (k - 1) as nat);
    }
}

/// `pow256` is positive.
pub proof fn lemma_pow256_positive(k: nat)
    ensures
        pow256(k) > 0,
    decreases k,
{
    if k > 0 {
        lemma_pow256_positive((k - 1) as nat);
    }
}

/// Sixteen little-endian bytes determine the `u128` they encode.
pub proof fn lemma_enc_u128_injective(v: u128, w: u128)
    requires
        enc_u128(v) == enc_u128(w),
    ensures
        v == w,
{
    assert(pow256(16) == 0x100000000000000000000000000000000) by {
        reveal_with_fuel(pow256, 17);
    }
    lemma_le_bytes_injective(v as int, w as int, 16);
}

/// Append the sixteen little-endian bytes of `v` to `out`.
pub fn encode_u128(v: u128, out: &mut Vec<u8>)
    ensures
        final(out)@ == old(out)@ + enc_u128(v),
{
    let mut x: u128 = v;
    let mut i: usize = 0;
    while i < 16
        invariant
            i <= 16,
            enc_u128(v) == out@.subrange(old(out)@.len() as int, out@.len() as int) + le_bytes(
                x as int,
                (16 - i) as nat,
            ),
            out@.len() == old(out)@.len() + i,
            out@.subrange(0, old(out)@.len() as int) == old(out)@,
        decreases 16 - i,
    {
        let b: u8 = (x % 256) as u8;
        let ghost snap = out@;
        out.push(b);
        proof {
            let base = old(out)@.len() as int;
            let tail = le_bytes(x as int / 256, (16 - (i + 1)) as nat);
            assert(le_bytes(x as int, (16 - i) as nat) == seq![b] + tail);
            assert(out@ == snap + seq![b]);
            assert(out@.subrange(base, out@.len() as int) =~= snap.subrange(
                base,
                snap.len() as int,
            ) + seq![b]);
            assert((snap.subrange(base, snap.len() as int) + seq![b]) + tail =~= snap.subrange(
                base,
                snap.len() as int,
            ) + (seq![b] + tail));
            assert(out@.subrange(0, base) =~= snap.subrange(0, base));
        }
        x = x / 256;
        i = i + 1;
    }
    proof {
        assert(le_bytes(x as int, 0) =~= Seq::<u8>::empty());
        assert(out@ =~= out@.subrange(0, old(out)@.len() as int) + out@.subrange(
            old(out)@.len() as int,
            out@.len() as int,
        ));
        assert(out@.subrange(old(out)@.len() as int, out@.len() as int) + le_bytes(x as int, 0)
            =~= out@.subrange(old(out)@.len() as int, out@.len() as int));
    }
}

/// Read sixteen little-endian bytes starting at `pos`.
///
/// Fails exactly when fewer than sixteen bytes remain.
pub fn decode_u128(bytes: &Vec<u8>, pos: usize) -> (r: Option<(u128, usize)>)
    ensures
        r matches Some(p) ==> p.1 == pos + 16 && p.1 <= bytes@.len()
            && bytes@.subrange(pos as int, p.1 as int) == enc_u128(p.0),
        r is None ==> bytes@.len() < pos + 16,
{
    if bytes.len() < 16 || pos > bytes.len() - 16 {
        return None;
    }
    let mut acc: u128 = 0;
    let mut j: usize = 16;
    proof {
        assert(le_bytes(0int, 0) =~= bytes@.subrange(pos + 16 as int, pos + 16 as int));
    }
    while j > 0
        invariant
            j <= 16,
            pos + 16 <= bytes@.len(),
            bytes@.len() <= usize::MAX,
            acc < pow256((16 - j) as nat),
            le_bytes(acc as int, (16 - j) as nat) == bytes@.subrange(pos + j as int, pos + 16),
        decreases j,
    {
        j = j - 1;
        let b = bytes[pos + j];
        proof {
            let p = pow256((16 - (j + 1)) as nat);
            assert(pow256((16 - j) as nat) == 256 * p);
            assert(pow256(16) == 0x100000000000000000000000000000000) by {
                reveal_with_fuel(pow256, 17);
            }
            assert(pow256((16 - j) as nat) <= pow256(16)) by {
                lemma_pow256_monotone((16 - j) as nat, 16);
            }
            assert(acc * 256 + b < 256 * p) by (nonlinear_arith)
                requires
                    0 <= acc < p && b < 256,
            ;
        }
        let prev: u128 = acc;
        acc = acc * 256 + b as u128;
        proof {
            assert(acc % 256 == b && acc / 256 == prev) by (nonlinear_arith)
                requires
                    acc == prev * 256 + b && 0 <= prev && b < 256,
            ;
            assert(le_bytes(acc as int, (16 - j) as nat) == seq![b] + le_bytes(
                prev as int,
                (16 - (j + 1)) as nat,
            ));
            assert(seq![b] + bytes@.subrange(pos + (j + 1) as int, pos + 16) =~= bytes@.subrange(
                pos + j as int,
                pos + 16,
            ));
        }
    }
    proof {
        assert(bytes@.subrange(pos as int, pos + 16 as int) == enc_u128(acc));
    }
    Some((acc, pos + 16))
}

/// `pow256` is monotone in its exponent.
pub proof fn lemma_pow256_monotone(a: nat, b: nat)
    requires
        a <= b,
    ensures
        pow256(a) <= pow256(b),
    decreases b,
{
    if a < b {
        lemma_pow256_monotone(a, (b - 1) as nat);
        lemma_pow256_positive((b - 1) as nat);
    }
}

/// Read exactly `n` raw bytes starting at `pos`.
///
/// Fails exactly when fewer than `n` bytes remain.
pub fn decode_fixed(bytes: &Vec<u8>, pos: usize, n: usize) -> (r: Option<(Vec<u8>, usize)>)
    ensures
        r matches Some(p) ==> p.1 == pos + n && p.1 <= bytes@.len() && p.0@.len() == n
            && p.0@ == bytes@.subrange(pos as int, p.1 as int),
        r is None ==> bytes@.len() < pos + n,
{
    if bytes.len() < n || pos > bytes.len() - n {
        return None;
    }
    let mut v: Vec<u8> = Vec::new();
    let mut i: usize = 0;
    while i < n
        invariant
            i <= n,
            pos + n <= bytes@.len(),
            bytes@.len() <= usize::MAX,
            v@ == bytes@.subrange(pos as int, pos + i as int),
        decreases n - i,
    {
        v.push(bytes[pos + i]);
        proof {
            assert(v@ =~= bytes@.subrange(pos as int, pos + (i + 1) as int));
        }
        i = i + 1;
    }
    Some((v, pos + n))
}

} // verus!
