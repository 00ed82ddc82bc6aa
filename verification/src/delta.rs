//! Delta codec: each byte after the first is coded as a signed difference
//! from its predecessor, with run-length coding for repeats.
//!
//! Stream grammar, MSB-first: the first input byte raw (8 bits), then a
//! sequence of records, each opened by a two-bit opcode:
//! `00` short delta (two family bits, then `family + 2` index bits),
//! `01` run (three bits holding `length - 1`),
//! `10` escape (one sign bit, eight magnitude bits),
//! `11` end of stream.

use vstd::prelude::*;
use vstd::arithmetic::power2::{pow2, lemma2_to64};
use crate::bits::{
    BitReader, BitWriter, byte_bits, bytes_bits, bits_val, val_bits, pack_bits, pad_to_byte,
    lemma_val_bits_val, lemma_pack_pad,
};

verus! {

/// Absolute value of a difference.
pub open spec fn abs_val(d: int) -> int {
    if d < 0 {
        -d
    } else {
        d
    }
}

/// Number of index entries on each side of zero in family `f`.
pub open spec fn fam_half(f: nat) -> nat {
    if f == 0 {
        2
    } else if f == 1 {
        4
    } else if f == 2 {
        8
    } else {
        16
    }
}

/// Smallest magnitude coded by family `f`.
pub open spec fn fam_min(f: nat) -> int {
    if f == 0 {
        1
    } else if f == 1 {
        3
    } else if f == 2 {
        7
    } else {
        15
    }
}

/// Largest magnitude coded by family `f`.
pub open spec fn fam_max(f: nat) -> int {
    if f == 0 {
        2
    } else if f == 1 {
        6
    } else if f == 2 {
        14
    } else {
        30
    }
}

/// The family that codes difference `d`.
pub open spec fn fam_of(d: int) -> nat
    recommends
        1 <= abs_val(d) <= 30,
{
    if abs_val(d) <= 2 {
        0
    } else if abs_val(d) <= 6 {
        1
    } else if abs_val(d) <= 14 {
        2
    } else {
        3
    }
}

/// Entry `idx` of family `f`'s table, the admissible differences in
/// ascending order: `-max ..= -min` then `min ..= max`.
pub open spec fn diff_table(f: nat, idx: nat) -> int
    recommends
        f <= 3,
        idx < 2 * fam_half(f),
{
    if idx < fam_half(f) {
        idx - fam_max(f)
    } else {
        fam_min(f) + (idx - fam_half(f))
    }
}

/// The index of difference `d` within its family's table.
pub open spec fn idx_of(d: int) -> nat
    recommends
        1 <= abs_val(d) <= 30,
{
    if d < 0 {
        (d + fam_max(fam_of(d))) as nat
    } else {
        (fam_half(fam_of(d)) + d - fam_min(fam_of(d))) as nat
    }
}

/// Bits of a short-delta record (without the opcode).
pub open spec fn short_bits(d: int) -> Seq<bool>
    recommends
        1 <= abs_val(d) <= 30,
{
    val_bits(fam_of(d) as u8, 2) + val_bits(idx_of(d) as u8, (fam_of(d) + 2) as nat)
}

/// A full difference record: short family form or long escape, opcode included.
pub open spec fn diff_bits(d: int) -> Seq<bool>
    recommends
        1 <= abs_val(d) <= 255,
{
    if abs_val(d) <= 30 {
        val_bits(0, 2) + short_bits(d)
    } else {
        val_bits(2, 2) + seq![d < 0] + byte_bits(abs_val(d) as u8)
    }
}

/// A run record repeating the previous byte `r` times, `1 <= r <= 8`.
pub open spec fn run_bits(r: nat) -> Seq<bool>
    recommends
        1 <= r <= 8,
{
    val_bits(1, 2) + val_bits((r - 1) as u8, 3)
}

/// A pending run, or nothing when no repetition is pending.
pub open spec fn run_opt(rep: nat) -> Seq<bool>
    recommends
        rep <= 7,
{
    if rep == 0 {
        Seq::empty()
    } else {
        run_bits(rep)
    }
}

/// Bits emitted for positions `i..` of `x`, with `rep` pending repetitions
/// of `x[i - 1]`, ending with the terminator opcode.
pub open spec fn delta_body(x: Seq<u8>, i: int, rep: nat) -> Seq<bool>
    recommends
        1 <= i <= x.len(),
        rep <= 7,
    decreases x.len() - i,
{
    if i >= x.len() {
        run_opt(rep) + val_bits(3, 2)
    } else {
        let d = x[i] - x[i - 1];
        if d == 0 {
            if rep == 7 {
                run_bits(8) + delta_body(x, i + 1, 0)
            } else {
                delta_body(x, i + 1, (rep + 1) as nat)
            }
        } else {
            run_opt(rep) + diff_bits(d) + delta_body(x, i + 1, 0)
        }
    }
}

/// The whole encoded bit stream for a non-empty chunk.
pub open spec fn delta_bits(x: Seq<u8>) -> Seq<bool>
    recommends
        x.len() >= 1,
{
    byte_bits(x[0]) + delta_body(x, 1, 0)
}

/// A predecessor byte moved by difference `v`, wrapping modulo 256.
pub open spec fn wrap_byte(v: int) -> u8
    recommends
        -256 < v < 512,
{
    if v < 0 {
        (v + 256) as u8
    } else if v > 255 {
        (v - 256) as u8
    } else {
        v as u8
    }
}

/// Decode records from `bits` onto `acc`, `last` being the byte most
/// recently produced; `None` when the stream runs out before a terminator.
pub open spec fn delta_steps(bits: Seq<bool>, last: u8, acc: Seq<u8>) -> Option<Seq<u8>>
    decreases bits.len(),
{
    if bits.len() < 2 {
        None
    } else {
        let rest = bits.skip(2);
        if !bits[0] && !bits[1] {
            if rest.len() < 2 {
                None
            } else {
                let f = bits_val(rest.take(2));
                if rest.len() < 4 + f as int {
                    None
                } else {
                    let idx = bits_val(rest.subrange(2, 4 + f as int));
                    let nb = wrap_byte(last + diff_table(f, idx));
                    delta_steps(rest.skip(4 + f as int), nb, acc.push(nb))
                }
            }
        } else if !bits[0] && bits[1] {
            if rest.len() < 3 {
                None
            } else {
                let r = bits_val(rest.take(3));
                delta_steps(rest.skip(3), last, acc + Seq::new(r + 1, |k: int| last))
            }
        } else if bits[0] && !bits[1] {
            if rest.len() < 9 {
                None
            } else {
                let mag = bits_val(rest.subrange(1, 9));
                let nb = if rest[0] {
                    wrap_byte(last - mag)
                } else {
                    wrap_byte(last + mag)
                };
                delta_steps(rest.skip(9), nb, acc.push(nb))
            }
        } else {
            Some(acc)
        }
    }
}

/// Decode a whole stream: the raw first byte, then records up to the
/// terminator; trailing padding bits are ignored.
pub open spec fn delta_parse(bits: Seq<bool>) -> Option<Seq<u8>> {
    if bits.len() < 8 {
        None
    } else {
        let first = bits_val(bits.take(8)) as u8;
        delta_steps(bits.skip(8), first, seq![first])
    }
}

/// Family and table index for a short difference.
fn diff_family(diff: i16) -> (r: (u8, u8))
    requires
        1 <= abs_val(diff as int) <= 30,
    ensures
        r.0 == fam_of(diff as int),
        r.1 == idx_of(diff as int),
{
    let (f, half, min, max): (u8, i16, i16, i16) = if -2 <= diff && diff <= 2 {
        (0, 2, 1, 2)
    } else if -6 <= diff && diff <= 6 {
        (1, 4, 3, 6)
    } else if -14 <= diff && diff <= 14 {
        (2, 8, 7, 14)
    } else {
        (3, 16, 15, 30)
    };
    let idx: i16 = if diff < 0 {
        diff + max
    } else {
        half + diff - min
    };
    (f, idx as u8)
}

/// The packed field of a short-delta record: the family selector in the top
/// two bits, the table index below it, `family + 4` bits wide in all.
pub fn diff_to_bits(diff: i16) -> (r: (u8, u8))
    requires
        1 <= abs_val(diff as int) <= 30,
    ensures
        r.0 == fam_of(diff as int) * pow2((fam_of(diff as int) + 2) as nat) + idx_of(diff as int),
        r.1 == fam_of(diff as int) + 4,
{
    let (f, idx) = diff_family(diff);
    proof {
        lemma2_to64();
        lemma_idx_bound(diff as int);
        assert(pow2((f + 2) as nat) == (if f == 0 {
            4nat
        } else if f == 1 {
            8nat
        } else if f == 2 {
            16nat
        } else {
            32nat
        }));
        let ff = f;
        let ii = idx;
        assert(((ff << (ff + 2)) | ii) == ff * (if ff == 0 {
            4u8
        } else if ff == 1 {
            8u8
        } else if ff == 2 {
            16u8
        } else {
            32u8
        }) + ii) by (bit_vector)
            requires
                ff <= 3,
                ii < (if ff == 0 {
                    4u8
                } else if ff == 1 {
                    8u8
                } else if ff == 2 {
                    16u8
                } else {
                    32u8
                }),
        ;
    }
    ((f << (f + 2)) | idx, f + 4)
}

/// Index bound within a family: the table has `2 * fam_half` entries.
pub proof fn lemma_idx_bound(d: int)
    requires
        1 <= abs_val(d) <= 30,
    ensures
        idx_of(d) < 2 * fam_half(fam_of(d)),
        idx_of(d) < pow2((fam_of(d) + 2) as nat),
        diff_table(fam_of(d), idx_of(d)) == d,
{
    lemma2_to64();
}

/// Look a short-delta index up in its family table.
pub fn bits_to_diff(bits: u8, count: u8) -> (d: i16)
    requires
        2 <= count <= 5,
        bits < pow2(count as nat),
    ensures
        d as int == diff_table((count - 2) as nat, bits as nat),
        1 <= abs_val(d as int) <= 30,
{
    proof {
        lemma2_to64();
    }
    let f = count - 2;
    let (half, min, max): (i16, i16, i16) = if f == 0 {
        (2, 1, 2)
    } else if f == 1 {
        (4, 3, 6)
    } else if f == 2 {
        (8, 7, 14)
    } else {
        (16, 15, 30)
    };
    let b = bits as i16;
    if b < half {
        b - max
    } else {
        min + (b - half)
    }
}

/// Compress one non-empty chunk into its delta bit stream, zero-padded to
/// whole bytes.
pub fn compress(slice: &[u8]) -> (out: Vec<u8>)
    requires
        slice@.len() >= 1,
    ensures
        out@ == pack_bits(delta_bits(slice@)),
{
    let ghost x = slice@;
    let n = slice.len();
    let mut w = BitWriter::new();
    let mut repetition: u8 = 0;
    w.byte(slice[0]);
    proof {
        assert(w@ =~= byte_bits(x[0]));
    }
    let mut i: usize = 1;
    while i < n
        invariant
            1 <= i <= n,
            n == x.len(),
            slice@ == x,
            repetition <= 7,
            w.wf(),
            w@ + delta_body(x, i as int, repetition as nat) == delta_bits(x),
        decreases n - i,
    {
        let prev = slice[i - 1];
        let cur = slice[i];
        let diff: i16 = cur as i16 - prev as i16;
        let ghost pre = w@;
        let ghost rep0 = repetition as nat;
        proof {
            assert(diff as int == x[i as int] - x[i as int - 1]);
        }
        if diff == 0 {
            repetition = repetition + 1;
            if repetition == 8 {
                w.bits(0b01, 2);
                w.bits(repetition - 1, 3);
                repetition = 0;
                proof {
                    assert(w@ =~= pre + run_bits(8));
                    assert(delta_body(x, i as int, rep0) == run_bits(8) + delta_body(
                        x,
                        i as int + 1,
                        0,
                    ));
                    assert(w@ + delta_body(x, i as int + 1, 0) =~= delta_bits(x));
                }
            } else {
                proof {
                    assert(delta_body(x, i as int, rep0) == delta_body(
                        x,
                        i as int + 1,
                        rep0 + 1,
                    ));
                }
            }
        } else {
            if repetition != 0 {
                w.bits(0b01, 2);
                w.bits(repetition - 1, 3);
                repetition = 0;
                proof {
                    assert(w@ =~= pre + run_opt(rep0));
                }
            } else {
                proof {
                    assert(w@ =~= pre + run_opt(rep0));
                }
            }
            let ghost mid = w@;
            let ghost d = x[i as int] - x[i as int - 1];
            if diff >= -30 && diff <= 30 {
                let (f, idx) = diff_family(diff);
                w.bits(0b00, 2);
                w.bits(f, 2);
                w.bits(idx, f + 2);
                proof {
                    assert(w@ =~= mid + (val_bits(0, 2) + short_bits(d)));
                }
            } else {
                let mag: u8 = if diff < 0 {
                    (-diff) as u8
                } else {
                    diff as u8
                };
                w.bits(0b10, 2);
                w.bit(diff < 0);
                w.byte(mag);
                proof {
                    assert(mag == abs_val(d));
                    assert(w@ =~= mid + diff_bits(d));
                }
            }
            proof {
                assert(delta_body(x, i as int, rep0) == run_opt(rep0) + diff_bits(d)
                    + delta_body(x, i as int + 1, 0));
                assert(w@ + delta_body(x, i as int + 1, 0) =~= delta_bits(x));
            }
        }
        i = i + 1;
    }
    let ghost tail = w@;
    if repetition != 0 {
        w.bits(0b01, 2);
        w.bits(repetition - 1, 3);
        proof {
            assert(w@ =~= tail + run_opt(repetition as nat));
        }
    }
    w.bits(0b11, 2);
    proof {
        assert(delta_body(x, n as int, repetition as nat) == run_opt(repetition as nat)
            + val_bits(3, 2));
        assert(w@ =~= delta_bits(x));
    }
    w.flush();
    let out = w.into_boxed_slice();
    proof {
        lemma_pack_pad(delta_bits(x));
    }
    out
}

/// The value of a two-bit sequence, by its two bits.
proof fn lemma_bits_val2(t: Seq<bool>)
    requires
        t.len() == 2,
    ensures
        bits_val(t) == 2 * (if t[0] {
            1nat
        } else {
            0nat
        }) + (if t[1] {
            1nat
        } else {
            0nat
        }),
{
    reveal_with_fuel(bits_val, 4);
    let u = t.drop_last();
    assert(bits_val(u.drop_last()) == 0);
    assert(u.last() == t[0]);
    assert(t.last() == t[1]);
}

/// Bits 0 and 1 of the four opcode values.
proof fn lemma_opcode_bits()
    ensures
        !crate::bits::get_bit(0u8, 0) && !crate::bits::get_bit(0u8, 1),
        crate::bits::get_bit(1u8, 0) && !crate::bits::get_bit(1u8, 1),
        !crate::bits::get_bit(2u8, 0) && crate::bits::get_bit(2u8, 1),
        crate::bits::get_bit(3u8, 0) && crate::bits::get_bit(3u8, 1),
{
    assert(!crate::bits::get_bit(0u8, 0) && !crate::bits::get_bit(0u8, 1)
        && crate::bits::get_bit(1u8, 0) && !crate::bits::get_bit(1u8, 1)
        && !crate::bits::get_bit(2u8, 0) && crate::bits::get_bit(2u8, 1)
        && crate::bits::get_bit(3u8, 0) && crate::bits::get_bit(3u8, 1)) by (bit_vector);
}

/// Decompress a chunk, reporting a malformed stream as `None`: the stream
/// is malformed exactly when it ends before the terminator opcode.
pub fn try_decompress(slice: &[u8]) -> (r: Option<Vec<u8>>)
    ensures
        match r {
            Some(v) => delta_parse(bytes_bits(slice@)) == Some(v@),
            None => delta_parse(bytes_bits(slice@)) is None,
        },
{
    let ghost stream = bytes_bits(slice@);
    proof {
        lemma2_to64();
    }
    if slice.len() < 1 {
        return None;
    }
    let mut rd = BitReader::new(slice);
    let first = rd.byte();
    proof {
        assert(stream.take(8) =~= stream.subrange(0, 8));
        crate::bits::lemma_bits_val_bound(stream.take(8));
    }
    let mut out: Vec<u8> = Vec::new();
    out.push(first);
    let mut last = first;
    let ghost target = delta_parse(stream);
    proof {
        assert(out@ =~= seq![first]);
    }
    loop
        invariant
            rd.wf(),
            rd.stream() == stream,
            8 <= rd.cursor() <= stream.len(),
            delta_steps(stream.skip(rd.cursor()), last, out@) == target,
            target == delta_parse(stream),
        decreases stream.len() - rd.cursor(),
    {
        let ghost c = rd.cursor();
        let ghost rem = stream.skip(c);
        if !rd.has(2) {
            return None;
        }
        let op = rd.bits(2);
        proof {
            assert(rem.take(2) =~= stream.subrange(c, c + 2));
            lemma_bits_val2(rem.take(2));
            assert(rem[0] == stream[c] && rem[1] == stream[c + 1]);
        }
        if op == 0 {
            if !rd.has(2) {
                proof {
                    assert(rem.skip(2).len() < 2);
                }
                return None;
            }
            let f = rd.bits(2);
            proof {
                assert(rem.skip(2).take(2) =~= stream.subrange(c + 2, c + 4));
            }
            if !rd.has(f + 2) {
                proof {
                    assert(rem.skip(2).len() < 4 + f as int);
                }
                return None;
            }
            let idx = rd.bits(f + 2);
            proof {
                assert(rem.skip(2).subrange(2, 4 + f as int) =~= stream.subrange(
                    c + 4,
                    c + 4 + (f + 2) as int,
                ));
            }
            let d = bits_to_diff(idx, f + 2);
            let t: i16 = last as i16 + d;
            let nb: u8 = if t < 0 {
                (t + 256) as u8
            } else if t > 255 {
                (t - 256) as u8
            } else {
                t as u8
            };
            proof {
                assert(nb == wrap_byte(last + diff_table(f as nat, idx as nat)));
            }
            out.push(nb);
            last = nb;
            proof {
                assert(rem.skip(2).skip(4 + f as int) =~= stream.skip(rd.cursor()));
            }
        } else if op == 1 {
            if !rd.has(3) {
                proof {
                    assert(rem.skip(2).len() < 3);
                }
                return None;
            }
            let r = rd.bits(3);
            proof {
                assert(rem.skip(2).take(3) =~= stream.subrange(c + 2, c + 5));
            }
            let ghost pre = out@;
            let mut k: u8 = 0;
            while k < r + 1
                invariant
                    k <= r + 1,
                    r < 8,
                    out@ == pre + Seq::new(k as nat, |j: int| last),
                decreases r + 1 - k,
            {
                out.push(last);
                k = k + 1;
                proof {
                    assert(out@ =~= pre + Seq::new(k as nat, |j: int| last));
                }
            }
            proof {
                assert(Seq::new((r + 1) as nat, |j: int| last) =~= Seq::new(
                    bits_val(rem.skip(2).take(3)) + 1,
                    |j: int| last,
                ));
                assert(rem.skip(2).skip(3) =~= stream.skip(rd.cursor()));
            }
        } else if op == 2 {
            if !rd.has(9) {
                proof {
                    assert(rem.skip(2).len() < 9);
                }
                return None;
            }
            let neg = rd.bit();
            let mag = rd.byte();
            proof {
                assert(rem.skip(2)[0] == stream[c + 2]);
                assert(rem.skip(2).subrange(1, 9) =~= stream.subrange(c + 3, c + 11));
            }
            let t: i16 = if neg {
                last as i16 - mag as i16
            } else {
                last as i16 + mag as i16
            };
            let nb: u8 = if t < 0 {
                (t + 256) as u8
            } else if t > 255 {
                (t - 256) as u8
            } else {
                t as u8
            };
            out.push(nb);
            last = nb;
            proof {
                assert(rem.skip(2).skip(9) =~= stream.skip(rd.cursor()));
            }
        } else {
            proof {
                assert(op == 3);
                assert(rem[0] && rem[1]);
            }
            return Some(out);
        }
    }
}

/// Decompress a well-formed delta stream; the framing layer upstream
/// guarantees the chunk is complete, so a truncated stream is outside this
/// function's contract.
pub fn decompress(slice: &[u8]) -> (out: Vec<u8>)
    requires
        delta_parse(bytes_bits(slice@)) is Some,
    ensures
        Some(out@) == delta_parse(bytes_bits(slice@)),
{
    match try_decompress(slice) {
        Some(v) => v,
        None => vstd::pervasive::unreached(),
    }
}

/// Decoding one difference record and the rest of the stream extends the
/// output by `x[i]` and carries on: the heart of the round trip.
proof fn lemma_diff_decode(x: Seq<u8>, i: int, pad: Seq<bool>)
    requires
        1 <= i < x.len(),
        x[i] != x[i - 1],
    ensures
        delta_steps(
            diff_bits(x[i] - x[i - 1]) + (delta_body(x, i + 1, 0) + pad),
            x[i - 1],
            x.take(i),
        ) == Some(x),
    decreases x.len() - i, 0int,
{
    lemma2_to64();
    lemma_opcode_bits();
    let d = x[i] - x[i - 1];
    let tail = delta_body(x, i + 1, 0) + pad;
    let bits = diff_bits(d) + tail;
    assert(wrap_byte(x[i - 1] + d) == x[i]);
    assert(x.take(i).push(x[i]) =~= x.take(i + 1));
    lemma_delta_body_decode(x, i + 1, 0, pad);
    if abs_val(d) <= 30 {
        assert(bits[0] == crate::bits::get_bit(0u8, 1));
        assert(bits[1] == crate::bits::get_bit(0u8, 0));
        let rest = bits.skip(2);
        assert(rest =~= short_bits(d) + tail);
        assert(rest.take(2) =~= val_bits(fam_of(d) as u8, 2));
        lemma_idx_bound(d);
        assert(fam_of(d) < 4);
        lemma_val_bits_val(fam_of(d) as u8, 2);
        let f = bits_val(rest.take(2));
        assert(f == fam_of(d));
        assert(rest.subrange(2, 4 + f as int) =~= val_bits(
            idx_of(d) as u8,
            (fam_of(d) + 2) as nat,
        ));
        assert(pow2((fam_of(d) + 2) as nat) == (if fam_of(d) == 0 {
            4nat
        } else if fam_of(d) == 1 {
            8nat
        } else if fam_of(d) == 2 {
            16nat
        } else {
            32nat
        }));
        lemma_val_bits_val(idx_of(d) as u8, (fam_of(d) + 2) as nat);
        assert(bits_val(rest.subrange(2, 4 + f as int)) == idx_of(d));
        assert(rest.skip(4 + f as int) =~= tail);
    } else {
        assert(bits[0] == crate::bits::get_bit(2u8, 1));
        assert(bits[1] == crate::bits::get_bit(2u8, 0));
        let rest = bits.skip(2);
        assert(rest =~= (seq![d < 0] + byte_bits(abs_val(d) as u8)) + tail);
        assert(rest[0] == (d < 0));
        assert(rest.subrange(1, 9) =~= byte_bits(abs_val(d) as u8));
        lemma_val_bits_val(abs_val(d) as u8, 8);
        assert(bits_val(rest.subrange(1, 9)) == abs_val(d));
        assert(rest.skip(9) =~= tail);
        if d < 0 {
            assert(wrap_byte(x[i - 1] - abs_val(d)) == x[i]);
        } else {
            assert(wrap_byte(x[i - 1] + abs_val(d)) == x[i]);
        }
    }
}

/// Decoding the remainder of an encoded chunk, with `rep` pending
/// repetitions already absorbed into the requires, recovers the chunk.
proof fn lemma_delta_body_decode(x: Seq<u8>, i: int, rep: nat, pad: Seq<bool>)
    requires
        1 <= i <= x.len(),
        rep <= 7,
        rep <= i - 1,
        forall|j: int| i - 1 - rep <= j <= i - 1 ==> #[trigger] x[j] == x[i - 1],
    ensures
        delta_steps(delta_body(x, i, rep) + pad, x[i - 1], x.take(i - rep)) == Some(x),
    decreases x.len() - i, 1int,
{
    lemma2_to64();
    lemma_opcode_bits();
    let body = delta_body(x, i, rep);
    let bits = body + pad;
    if i == x.len() {
        if rep == 0 {
            assert(bits[0] == crate::bits::get_bit(3u8, 1));
            assert(bits[1] == crate::bits::get_bit(3u8, 0));
            assert(x.take(i - rep) =~= x);
        } else {
            assert(bits[0] == crate::bits::get_bit(1u8, 1));
            assert(bits[1] == crate::bits::get_bit(1u8, 0));
            let rest = bits.skip(2);
            assert(rest.take(3) =~= val_bits((rep - 1) as u8, 3));
            lemma_val_bits_val((rep - 1) as u8, 3);
            let r = bits_val(rest.take(3));
            assert(r == rep - 1);
            let acc2 = x.take(i - rep) + Seq::new(r + 1, |k: int| x[i - 1]);
            assert(acc2 =~= x);
            let rest2 = rest.skip(3);
            assert(rest2 =~= val_bits(3, 2) + pad);
            assert(rest2[0] == crate::bits::get_bit(3u8, 1));
            assert(rest2[1] == crate::bits::get_bit(3u8, 0));
            assert(delta_steps(rest2, x[i - 1], acc2) == Some(acc2));
        }
    } else {
        let d = x[i] - x[i - 1];
        if d == 0 {
            if rep == 7 {
                assert(bits[0] == crate::bits::get_bit(1u8, 1));
                assert(bits[1] == crate::bits::get_bit(1u8, 0));
                let rest = bits.skip(2);
                assert(rest.take(3) =~= val_bits(7u8, 3));
                lemma_val_bits_val(7u8, 3);
                let r = bits_val(rest.take(3));
                assert(r == 7);
                let acc2 = x.take(i - rep) + Seq::new(r + 1, |k: int| x[i - 1]);
                assert(x[i] == x[i - 1]);
                assert(acc2 =~= x.take(i + 1));
                assert(rest.skip(3) =~= delta_body(x, i + 1, 0) + pad);
                lemma_delta_body_decode(x, i + 1, 0, pad);
            } else {
                assert(x[i] == x[i - 1]);
                assert(x.take(i + 1 - (rep + 1)) =~= x.take(i - rep));
                lemma_delta_body_decode(x, i + 1, rep + 1, pad);
                assert(delta_body(x, i, rep) == delta_body(x, i + 1, rep + 1));
            }
        } else {
            if rep == 0 {
                assert(bits =~= diff_bits(d) + (delta_body(x, i + 1, 0) + pad));
                assert(x.take(i - rep) =~= x.take(i));
                lemma_diff_decode(x, i, pad);
            } else {
                assert(bits[0] == crate::bits::get_bit(1u8, 1));
                assert(bits[1] == crate::bits::get_bit(1u8, 0));
                let rest = bits.skip(2);
                assert(rest.take(3) =~= val_bits((rep - 1) as u8, 3));
                lemma_val_bits_val((rep - 1) as u8, 3);
                let r = bits_val(rest.take(3));
                assert(r == rep - 1);
                let acc2 = x.take(i - rep) + Seq::new(r + 1, |k: int| x[i - 1]);
                assert(acc2 =~= x.take(i));
                assert(rest.skip(3) =~= diff_bits(d) + (delta_body(x, i + 1, 0) + pad));
                lemma_diff_decode(x, i, pad);
            }
        }
    }
}

/// Round trip: parsing a compressed chunk's bytes yields the chunk.
pub proof fn lemma_delta_round_trip(x: Seq<u8>)
    requires
        x.len() >= 1,
    ensures
        delta_parse(bytes_bits(pack_bits(delta_bits(x)))) == Some(x),
{
    lemma2_to64();
    crate::bits::lemma_pack_bits(delta_bits(x));
    let bits = pad_to_byte(delta_bits(x));
    assert(bits.take(8) =~= byte_bits(x[0]));
    lemma_val_bits_val(x[0], 8);
    let zeros = Seq::new(crate::bits::pad_len(delta_bits(x).len()), |i: int| false);
    assert(bits.skip(8) =~= delta_body(x, 1, 0) + zeros);
    lemma_delta_body_decode(x, 1, 0, zeros);
    assert(x.take(1) =~= seq![x[0]]);
}

} // verus!
