//! Bit-level I/O over byte buffers, most-significant-bit first.
//!
//! The model of a bit stream is a `Seq<bool>`. A byte sequence denotes the
//! concatenation of its bytes' bits, bit 7 first; `BitWriter` appends bits to
//! such a stream and `BitReader` consumes them behind a cursor.

use vstd::prelude::*;
use vstd::arithmetic::div_mod::{lemma_fundamental_div_mod_converse, lemma_fundamental_div_mod};
use vstd::arithmetic::power2::{pow2, lemma_pow2_strictly_increases, lemma2_to64};

verus! {

/// Bit `k` (0 = least significant) of byte `b`.
pub open spec fn get_bit(b: u8, k: u8) -> bool
    recommends
        k <= 7,
{
    (b >> k) & 1 == 1
}

/// The low `count` bits of `v`, most significant first.
pub open spec fn val_bits(v: u8, count: nat) -> Seq<bool>
    recommends
        count <= 8,
{
    Seq::new(count, |i: int| get_bit(v, (count - 1 - i) as u8))
}

/// All eight bits of a byte, bit 7 first.
pub open spec fn byte_bits(b: u8) -> Seq<bool> {
    val_bits(b, 8)
}

/// The bit stream denoted by a byte sequence: each byte contributes its
/// bits from bit 7 down to bit 0.
pub open spec fn bytes_bits(s: Seq<u8>) -> Seq<bool> {
    Seq::new(s.len() * 8, |i: int| get_bit(s[i / 8], (7 - (i % 8)) as u8))
}

/// The value of a bit sequence read most-significant-bit first.
pub open spec fn bits_val(s: Seq<bool>) -> nat
    decreases s.len(),
{
    if s.len() == 0 {
        0
    } else {
        2 * bits_val(s.drop_last()) + (if s.last() {
            1nat
        } else {
            0nat
        })
    }
}

/// Zeros appended to reach the next byte boundary.
pub open spec fn pad_len(n: nat) -> nat {
    ((8 - n % 8) % 8) as nat
}

/// A bit stream padded with zeros to a whole number of bytes.
pub open spec fn pad_to_byte(s: Seq<bool>) -> Seq<bool> {
    s + Seq::new(pad_len(s.len()), |i: int| false)
}

/// The byte holding an eight-bit sequence.
pub open spec fn byte_of_bits(s: Seq<bool>) -> u8
    recommends
        s.len() == 8,
{
    bits_val(s) as u8
}

/// The byte sequence that carries a bit stream, zero-padded at the tail.
pub open spec fn pack_bits(s: Seq<bool>) -> Seq<u8> {
    Seq::new(
        (s.len() + pad_len(s.len())) / 8,
        |i: int| byte_of_bits(pad_to_byte(s).subrange(8 * i, 8 * i + 8)),
    )
}

pub proof fn lemma_bits_val_bound(s: Seq<bool>)
    ensures
        bits_val(s) < pow2(s.len()),
    decreases s.len(),
{
    if s.len() == 0 {
        assert(pow2(0) == 1) by {
            lemma2_to64();
        }
    } else {
        vstd::arithmetic::power2::lemma_pow2_unfold(s.len());
        lemma_bits_val_bound(s.drop_last());
    }
}

pub proof fn lemma_bits_val_push(s: Seq<bool>, b: bool)
    ensures
        bits_val(s.push(b)) == 2 * bits_val(s) + (if b {
            1nat
        } else {
            0nat
        }),
{
    assert(s.push(b).drop_last() =~= s);
    assert(s.push(b).last() == b);
}

/// Reading back the low `count` bits written MSB-first recovers the value.
pub proof fn lemma_val_bits_val(v: u8, count: nat)
    requires
        count <= 8,
        v < pow2(count),
    ensures
        bits_val(val_bits(v, count)) == v,
    decreases count,
{
    lemma2_to64();
    if count == 0 {
    } else {
        let h = v / 2;
        assert(v / 2 == v >> 1) by (bit_vector);
        assert(val_bits(v, count).drop_last() =~= val_bits(h, (count - 1) as nat)) by {
            assert forall|k: u8| 1 <= k <= 7 implies #[trigger] get_bit(v, k) == get_bit(
                h,
                (k - 1) as u8,
            ) by {
                assert(h == v >> 1 && 1 <= k <= 7 ==> (get_bit(v, k) == get_bit(h, (k - 1) as u8)))
                    by (bit_vector)
                    requires
                        h == v >> 1,
                        1 <= k <= 7,
                ;
            }
        }
        assert(val_bits(v, count).last() == get_bit(v, 0));
        assert(v == 2 * (v >> 1) + (v & 1) && (v >> 1) < 128 && ((v & 1) == 1 <==> get_bit(v, 0))
            && v & 1 <= 1) by (bit_vector);
        if count < 8 {
            lemma_pow2_strictly_increases(count, 8);
        }
        assert(h < pow2((count - 1) as nat)) by {
            vstd::arithmetic::power2::lemma_pow2_unfold(count);
        }
        lemma_val_bits_val(h, (count - 1) as nat);
    }
}

/// Writing back the value of an eight-bit-or-shorter sequence recovers it.
pub proof fn lemma_bits_val_bits(s: Seq<bool>)
    requires
        s.len() <= 8,
    ensures
        val_bits(bits_val(s) as u8, s.len()) =~= s,
    decreases s.len(),
{
    lemma2_to64();
    lemma_bits_val_bound(s);
    if s.len() == 0 {
    } else {
        let t = s.drop_last();
        lemma_bits_val_bits(t);
        lemma_bits_val_bound(t);
        let a = bits_val(t) as u8;
        let b: u8 = if s.last() {
            1
        } else {
            0
        };
        let v = bits_val(s) as u8;
        assert(v == 2 * a + b);
        if s.len() < 8 {
            lemma_pow2_strictly_increases((s.len() - 1) as nat, 7);
            lemma_pow2_strictly_increases(s.len(), 8);
        } else {
            lemma_pow2_strictly_increases(7, 8);
        }
        assert(a < 128);
        assert forall|i: int| 0 <= i < s.len() implies val_bits(v, s.len())[i] == s[i] by {
            if i < s.len() - 1 {
                let k = (s.len() - 2 - i) as u8;
                assert(a < 128 && b <= 1 && k <= 6 ==> get_bit((2 * a + b) as u8, (k + 1) as u8)
                    == get_bit(a, k)) by (bit_vector);
                assert(s[i] == t[i]);
            } else {
                assert(a < 128 && b <= 1 ==> (get_bit((2 * a + b) as u8, 0) <==> b == 1))
                    by (bit_vector);
            }
        }
    }
}

/// Indexing into the bit stream of a byte sequence.
pub proof fn lemma_bytes_bits_index(s: Seq<u8>, i: int, k: u8)
    requires
        0 <= i < s.len(),
        k <= 7,
    ensures
        bytes_bits(s)[8 * i + 7 - k] == get_bit(s[i], k),
{
    let n = 8 * i + 7 - k;
    lemma_fundamental_div_mod_converse(n, 8, i, 7 - k);
}

pub proof fn lemma_bytes_bits_push(s: Seq<u8>, b: u8)
    ensures
        bytes_bits(s.push(b)) =~= bytes_bits(s) + byte_bits(b),
{
    let t = s.push(b);
    assert forall|n: int| 0 <= n < t.len() * 8 implies bytes_bits(t)[n] == (bytes_bits(s)
        + byte_bits(b))[n] by {
        lemma_fundamental_div_mod(n, 8);
        if n < s.len() * 8 {
            assert(n / 8 < s.len()) by {
                lemma_fundamental_div_mod(n, 8);
            }
            assert(t[n / 8] == s[n / 8]);
        } else {
            lemma_fundamental_div_mod_converse(n, 8, s.len() as int, n - 8 * s.len());
            assert(t[n / 8] == b);
        }
    }
}

/// A byte sequence is determined by its bit stream.
pub proof fn lemma_bytes_bits_injective(a: Seq<u8>, b: Seq<u8>)
    requires
        bytes_bits(a) == bytes_bits(b),
    ensures
        a =~= b,
{
    assert(bytes_bits(a).len() == a.len() * 8);
    assert(bytes_bits(b).len() == b.len() * 8);
    assert(bytes_bits(a).len() == bytes_bits(b).len());
    assert forall|i: int| 0 <= i < a.len() implies a[i] == b[i] by {
        lemma_byte_from_bits(a, i);
        lemma_byte_from_bits(b, i);
        assert(bytes_bits(a).subrange(8 * i, 8 * i + 8) =~= bytes_bits(b).subrange(
            8 * i,
            8 * i + 8,
        ));
    }
}

/// A byte of a sequence can be recovered from its slice of the bit stream.
pub proof fn lemma_byte_from_bits(s: Seq<u8>, i: int)
    requires
        0 <= i < s.len(),
    ensures
        bytes_bits(s).subrange(8 * i, 8 * i + 8) =~= byte_bits(s[i]),
        byte_of_bits(bytes_bits(s).subrange(8 * i, 8 * i + 8)) == s[i],
{
    assert forall|j: int| 0 <= j < 8 implies bytes_bits(s)[8 * i + j] == byte_bits(s[i])[j] by {
        lemma_bytes_bits_index(s, i, (7 - j) as u8);
    }
    assert(bytes_bits(s).subrange(8 * i, 8 * i + 8) =~= byte_bits(s[i]));
    lemma2_to64();
    assert(s[i] < pow2(8));
    lemma_val_bits_val(s[i], 8);
}

/// The packed form of a bit stream carries exactly the padded stream.
pub proof fn lemma_pack_bits(s: Seq<bool>)
    ensures
        bytes_bits(pack_bits(s)) =~= pad_to_byte(s),
        pack_bits(s).len() * 8 == s.len() + pad_len(s.len()),
{
    let p = pad_to_byte(s);
    let out = pack_bits(s);
    assert(p.len() % 8 == 0) by {
        lemma_mod_pad(s.len());
    }
    assert(out.len() == p.len() / 8);
    lemma_fundamental_div_mod(p.len() as int, 8);
    assert(out.len() * 8 == p.len());
    assert forall|n: int| 0 <= n < p.len() implies bytes_bits(out)[n] == p[n] by {
        let i = n / 8;
        let k = n % 8;
        lemma_fundamental_div_mod(n, 8);
        assert(0 <= i < out.len());
        let chunk = p.subrange(8 * i, 8 * i + 8);
        lemma_bits_val_bits(chunk);
        assert(val_bits(byte_of_bits(chunk), 8) =~= chunk);
        lemma_bytes_bits_index(out, i, (7 - k) as u8);
        assert(bytes_bits(out)[8 * i + 7 - (7 - k)] == get_bit(out[i], (7 - k) as u8));
        assert(byte_bits(out[i])[k] == get_bit(out[i], (7 - k) as u8));
        assert(chunk[k] == p[n]);
    }
}

proof fn lemma_mod_pad(n: nat)
    ensures
        (n + pad_len(n)) % 8 == 0,
        n + pad_len(n) < n + 8,
{
    let r = n % 8;
    lemma_fundamental_div_mod(n as int, 8);
    if r == 0 {
    } else {
        lemma_fundamental_div_mod_converse((n + pad_len(n)) as int, 8, n as int / 8 + 1, 0);
    }
}

/// Accumulates bits most-significant first into a growing byte buffer.
pub struct BitWriter {
    bytes: Vec<u8>,
    bits: u8,
    current_bit: u8,
}

impl BitWriter {
    /// The bits written so far.
    pub closed spec fn view(&self) -> Seq<bool> {
        bytes_bits(self.bytes@) + Seq::new(
            (7 - self.current_bit) as nat,
            |i: int| get_bit(self.bits, (7 - i) as u8),
        )
    }

    pub closed spec fn wf(&self) -> bool {
        &&& self.current_bit <= 7
        &&& forall|k: u8| k <= self.current_bit ==> !get_bit(self.bits, k)
    }

    pub fn new() -> (w: Self)
        ensures
            w.wf(),
            w@ == Seq::<bool>::empty(),
    {
        let w = BitWriter { bytes: Vec::new(), bits: 0, current_bit: 7 };
        proof {
            lemma_get_bit_zero();
            assert(w@ =~= Seq::<bool>::empty());
        }
        w
    }

    /// Append one bit.
    pub fn bit(&mut self, bit: bool)
        requires
            old(self).wf(),
        ensures
            final(self).wf(),
            final(self)@ == old(self)@.push(bit),
    {
        let ghost pre = *self;
        if bit {
            let b = self.bits;
            let c = self.current_bit;
            self.bits = b | (1u8 << c);
            proof {
                lemma_set_bit(b, c);
                assert(get_bit(self.bits, self.current_bit));
            }
        }
        proof {
            assert(get_bit(self.bits, self.current_bit) == bit);
        }

        if self.current_bit != 0 {
            self.current_bit = self.current_bit - 1;
            proof {
                assert(self@ =~= old(self)@.push(bit));
            }
        } else {
            let full = self.bits;
            self.bytes.push(full);
            self.bits = 0;
            self.current_bit = 7;
            proof {
                lemma_get_bit_zero();
                lemma_bytes_bits_push(pre.bytes@, full);
                assert(byte_bits(full) =~= Seq::new(7nat, |i: int| get_bit(full, (7 - i) as u8))
                    .push(get_bit(full, 0)));
                assert(self@ =~= old(self)@.push(bit));
            }
        }
    }

    /// Append the low `count` bits of `bits`, most significant first.
    pub fn bits(&mut self, bits: u8, count: u8)
        requires
            old(self).wf(),
            count <= 8,
        ensures
            final(self).wf(),
            final(self)@ == old(self)@ + val_bits(bits, count as nat),
    {
        let ghost pre = *self;
        for j in 0..count
            invariant
                self.wf(),
                count <= 8,
                self@ =~= pre@ + val_bits(bits, count as nat).take(j as int),
        {
            let i = count - 1 - j;
            self.bit((bits >> i) & 1 == 1);
            proof {
                assert(val_bits(bits, count as nat).take(j + 1) =~= val_bits(
                    bits,
                    count as nat,
                ).take(j as int).push(get_bit(bits, i)));
            }
        }
        assert(val_bits(bits, count as nat).take(count as int) =~= val_bits(bits, count as nat));
    }

    /// Append a whole byte.
    pub fn byte(&mut self, byte: u8)
        requires
            old(self).wf(),
        ensures
            final(self).wf(),
            final(self)@ == old(self)@ + byte_bits(byte),
    {
        self.bits(byte, 8);
    }

    /// Push the pending partial byte, zero-filled to the right; a no-op when
    /// the stream already ends on a byte boundary.
    pub fn flush(&mut self)
        requires
            old(self).wf(),
        ensures
            final(self).wf(),
            final(self)@ == pad_to_byte(old(self)@),
            final(self)@.len() % 8 == 0,
    {
        proof {
            lemma_mod_bytes(self.bytes@.len(), (7 - self.current_bit) as nat);
        }
        if self.current_bit < 7 {
            let full = self.bits;
            self.bytes.push(full);
            self.bits = 0;
            self.current_bit = 7;
            proof {
                lemma_get_bit_zero();
                lemma_bytes_bits_push(old(self).bytes@, full);
                assert(byte_bits(full) =~= Seq::new(
                    (7 - old(self).current_bit) as nat,
                    |i: int| get_bit(full, (7 - i) as u8),
                ) + Seq::new((old(self).current_bit + 1) as nat, |i: int| false)) by {
                    assert forall|k: u8| k <= old(self).current_bit implies !(#[trigger] get_bit(
                        full,
                        k,
                    )) by {
                        assert(old(self).wf());
                    }
                }
                lemma_mod_bytes(self.bytes@.len(), 0);
                assert(self@ =~= pad_to_byte(old(self)@));
            }
        } else {
            proof {
                assert(self@ =~= pad_to_byte(old(self)@));
            }
        }
    }

    /// The written stream as bytes: a pending partial byte is flushed
    /// first, zero-filled to the right.
    pub fn into_boxed_slice(self) -> (out: Vec<u8>)
        requires
            self.wf(),
        ensures
            out@ == pack_bits(self@),
    {
        let ghost orig = self@;
        let mut w = self;
        w.flush();
        proof {
            lemma_mod_bytes(w.bytes@.len(), (7 - w.current_bit) as nat);
            assert(w@ =~= bytes_bits(w.bytes@));
            lemma_pack_bits(w@);
            assert(pad_to_byte(w@) =~= w@);
            assert(bytes_bits(pack_bits(w@)) == bytes_bits(w.bytes@));
            lemma_bytes_bits_injective(pack_bits(w@), w.bytes@);
            lemma_pack_pad(orig);
        }
        w.bytes
    }
}

/// Packing is unchanged by padding the stream to a byte boundary first.
pub proof fn lemma_pack_pad(s: Seq<bool>)
    ensures
        pack_bits(pad_to_byte(s)) == pack_bits(s),
{
    let p = pad_to_byte(s);
    assert((p.len() % 8) == 0) by {
        lemma_fundamental_div_mod(s.len() as int, 8);
        if s.len() % 8 != 0 {
            lemma_fundamental_div_mod_converse(p.len() as int, 8, s.len() as int / 8 + 1, 0);
        }
    }
    assert(pad_to_byte(p) =~= p);
    assert(pack_bits(p) =~= pack_bits(s));
}

proof fn lemma_set_bit(b: u8, c: u8)
    by (bit_vector)
    requires
        c <= 7,
    ensures
        forall|k: u8| k <= 7 ==> #[trigger] get_bit(b | (1u8 << c), k) == (k == c || get_bit(
            b,
            k,
        )),
{
}

proof fn lemma_get_bit_zero()
    by (bit_vector)
    ensures
        forall|k: u8| !(#[trigger] get_bit(0u8, k)),
{
}

proof fn lemma_mod_bytes(n: nat, r: nat)
    requires
        r <= 7,
    ensures
        (n * 8 + r) % 8 == r,
{
    lemma_fundamental_div_mod_converse((n * 8 + r) as int, 8, n as int, r as int);
}

/// Reads bits most-significant first from a byte buffer behind a cursor.
pub struct BitReader<'a> {
    bytes: &'a [u8],
    index: usize,
    bit: u8,
}

impl<'a> BitReader<'a> {
    /// The whole underlying bit stream.
    pub closed spec fn stream(&self) -> Seq<bool> {
        bytes_bits(self.bytes@)
    }

    /// How many bits have been consumed.
    pub closed spec fn cursor(&self) -> int {
        self.index * 8 + 7 - self.bit
    }

    pub closed spec fn wf(&self) -> bool {
        &&& self.bit <= 7
        &&& 0 <= self.cursor() <= self.stream().len()
    }

    pub fn new(slice: &'a [u8]) -> (r: Self)
        ensures
            r.wf(),
            r.stream() == bytes_bits(slice@),
            r.cursor() == 0,
    {
        BitReader { bytes: slice, index: 0, bit: 7 }
    }

    /// Read one bit and advance.
    pub fn bit(&mut self) -> (b: bool)
        requires
            old(self).wf(),
            old(self).cursor() < old(self).stream().len(),
        ensures
            final(self).wf(),
            final(self).stream() == old(self).stream(),
            final(self).cursor() == old(self).cursor() + 1,
            b == old(self).stream()[old(self).cursor()],
    {
        proof {
            assert(self.index < self.bytes@.len());
            lemma_bytes_bits_index(self.bytes@, self.index as int, self.bit);
        }
        let byte = self.bytes[self.index];
        let b = byte & (1u8 << self.bit);
        proof {
            let k = self.bit;
            assert(k <= 7 ==> ((byte & (1u8 << k) != 0) <==> get_bit(byte, k))) by (bit_vector);
        }
        if self.bit != 0 {
            self.bit = self.bit - 1;
        } else {
            self.bit = 7;
            self.index = self.index + 1;
        }
        b != 0
    }

    /// Read `count` bits MSB-first as the low bits of the result.
    pub fn bits(&mut self, count: u8) -> (v: u8)
        requires
            old(self).wf(),
            count <= 8,
            old(self).cursor() + count <= old(self).stream().len(),
        ensures
            final(self).wf(),
            final(self).stream() == old(self).stream(),
            final(self).cursor() == old(self).cursor() + count,
            v == bits_val(old(self).stream().subrange(
                old(self).cursor(),
                old(self).cursor() + count,
            )),
            v < pow2(count as nat),
    {
        let ghost seg = old(self).stream().subrange(
            old(self).cursor(),
            old(self).cursor() + count,
        );
        let mut v: u8 = 0;
        proof {
            assert(seg.take(0) =~= Seq::<bool>::empty());
            assert(bits_val(seg.take(0)) == 0);
            assert(pow2(0) == 1) by {
                lemma2_to64();
            }
            assert(0nat * pow2((count - 0) as nat) == 0);
            assert(v == bits_val(seg.take(0)) * pow2((count - 0) as nat));
        }
        let mut j: u8 = 0;
        while j < count
            invariant
                j <= count,
                self.wf(),
                count <= 8,
                self.stream() == old(self).stream(),
                self.cursor() == old(self).cursor() + j,
                old(self).cursor() + count <= old(self).stream().len(),
                seg == old(self).stream().subrange(old(self).cursor(), old(self).cursor() + count),
                v == bits_val(seg.take(j as int)) * pow2((count - j) as nat),
            decreases count - j,
        {
            let b = self.bit();
            let i = count - 1 - j;
            let add: u8 = if b {
                1u8 << i
            } else {
                0
            };
            proof {
                let x = bits_val(seg.take(j as int));
                let q = pow2((count - j - 1) as nat);
                let bn: nat = if b {
                    1
                } else {
                    0
                };
                assert(seg.take(j + 1) =~= seg.take(j as int).push(seg[j as int]));
                assert(seg[j as int] == b);
                lemma_bits_val_push(seg.take(j as int), b);
                assert(bits_val(seg.take(j + 1)) == 2 * x + bn);
                assert(pow2((count - j) as nat) == 2 * q) by {
                    vstd::arithmetic::power2::lemma_pow2_unfold((count - j) as nat);
                }
                lemma_shift_is_pow2(i);
                assert(add as nat == bn * q) by {
                    vstd::arithmetic::power2::lemma_pow2_pos(i as nat);
                }
                assert((2 * x + bn) * q == x * (2 * q) + bn * q) by (nonlinear_arith);
                assert(bits_val(seg.take(j + 1)) * q < 256) by {
                    lemma_bits_val_bound(seg.take(j + 1));
                    lemma_pow2_mul_bound((j + 1) as nat, (count - j - 1) as nat, count as nat);
                }
            }
            v = v + add;
            j = j + 1;
        }
        proof {
            assert(seg.take(count as int) =~= seg);
            assert(pow2(0) == 1) by {
                lemma2_to64();
            }
            lemma_bits_val_bound(seg);
            assert(v == bits_val(seg) * pow2((count - count) as nat));
            assert(bits_val(seg) * pow2((count - count) as nat) == bits_val(seg))
                by (nonlinear_arith)
                requires
                    pow2((count - count) as nat) == 1,
            ;
            assert(v == bits_val(seg));
        }
        v
    }

    /// Whether `count` more bits can be read before the stream ends.
    pub fn has(&self, count: u8) -> (b: bool)
        requires
            self.wf(),
            count <= 9,
        ensures
            b == (self.cursor() + count <= self.stream().len()),
    {
        let len = self.bytes.len();
        if self.index >= len {
            proof {
                assert(self.bit == 7);
            }
            count == 0
        } else if len - self.index >= 2 {
            true
        } else {
            count <= self.bit + 1
        }
    }

    /// Read a whole byte.
    pub fn byte(&mut self) -> (v: u8)
        requires
            old(self).wf(),
            old(self).cursor() + 8 <= old(self).stream().len(),
        ensures
            final(self).wf(),
            final(self).stream() == old(self).stream(),
            final(self).cursor() == old(self).cursor() + 8,
            v == bits_val(old(self).stream().subrange(old(self).cursor(), old(self).cursor() + 8)),
            byte_bits(v) == old(self).stream().subrange(old(self).cursor(), old(self).cursor() + 8),
    {
        let v = self.bits(8);
        proof {
            let seg = old(self).stream().subrange(old(self).cursor(), old(self).cursor() + 8);
            lemma_bits_val_bits(seg);
            assert(byte_bits(v) =~= seg);
        }
        v
    }
}

proof fn lemma_shift_is_pow2(i: u8)
    requires
        i < 8,
    ensures
        (1u8 << i) as nat == pow2(i as nat),
{
    lemma2_to64();
    assert(i < 8 ==> (1u8 << i) == (if i == 0 {
        1u8
    } else if i == 1 {
        2u8
    } else if i == 2 {
        4u8
    } else if i == 3 {
        8u8
    } else if i == 4 {
        16u8
    } else if i == 5 {
        32u8
    } else if i == 6 {
        64u8
    } else {
        128u8
    })) by (bit_vector);
}

proof fn lemma_pow2_mul_bound(a: nat, b: nat, c: nat)
    requires
        a + b == c,
        c <= 8,
    ensures
        pow2(a) * pow2(b) <= 256,
        forall|x: nat, y: nat| x < pow2(a) && y <= pow2(b) ==> #[trigger] (x * y) < 256,
{
    vstd::arithmetic::power2::lemma_pow2_adds(a, b);
    lemma2_to64();
    vstd::arithmetic::power2::lemma_pow2(c);
    if c < 8 {
        lemma_pow2_strictly_increases(c, 8);
    }
    assert forall|x: nat, y: nat| x < pow2(a) && y <= pow2(b) implies #[trigger] (x * y) < 256 by {
        vstd::arithmetic::mul::lemma_mul_upper_bound(x as int, pow2(a) as int - 1, y as int, pow2(b) as int);
        assert((pow2(a) - 1) * pow2(b) <= pow2(a) * pow2(b) - pow2(b)) by {
            vstd::arithmetic::mul::lemma_mul_is_distributive_sub_other_way(
                pow2(b) as int,
                pow2(a) as int,
                1,
            );
        }
        vstd::arithmetic::power2::lemma_pow2_pos(b);
    }
}

} // verus!
