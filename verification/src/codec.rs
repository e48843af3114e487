//! Bit-level wire codec: aligned byte/word reads and writes, unaligned bit
//! fields, and the delta-compressed position encoding.
//!
//! The model is a sequence of booleans: bit `i` of the stream is bit `i % 8`
//! of byte `i / 8`, least significant bit first.  A writer's contract says
//! which bits each call appends; a reader's contract says which bits each
//! call consumes and what value they carry.

use vstd::prelude::*;
use vstd::arithmetic::power2::*;
use vstd::arithmetic::div_mod::*;

verus! {

/// The low `n` bits of `v`, least significant first.
pub open spec fn bits_of(v: nat, n: nat) -> Seq<bool>
    decreases n,
{
    if n == 0 {
        Seq::empty()
    } else {
        seq![v % 2 == 1] + bits_of(v / 2, (n - 1) as nat)
    }
}

/// The unsigned value of a bit sequence, least significant bit first.
pub open spec fn bits_to_nat(s: Seq<bool>) -> nat
    decreases s.len(),
{
    if s.len() == 0 {
        0
    } else {
        (if s[0] {
            1nat
        } else {
            0nat
        }) + 2 * bits_to_nat(s.drop_first())
    }
}

/// The bits of one byte.
pub open spec fn byte_bits(b: u8) -> Seq<bool> {
    bits_of(b as nat, 8)
}

/// The bit stream carried by a byte sequence.
pub open spec fn stream_bits(bytes: Seq<u8>) -> Seq<bool>
    decreases bytes.len(),
{
    if bytes.len() == 0 {
        Seq::empty()
    } else {
        byte_bits(bytes[0]) + stream_bits(bytes.drop_first())
    }
}

/// A bit field is as long as its declared width.
pub broadcast proof fn lemma_bits_of_len(v: nat, n: nat)
    ensures
        (#[trigger] bits_of(v, n)).len() == n,
    decreases n,
{
    if n > 0 {
        lemma_bits_of_len(v / 2, (n - 1) as nat);
    }
}

/// A byte sequence carries eight bits per byte.
pub broadcast proof fn lemma_stream_bits_len(bytes: Seq<u8>)
    ensures
        (#[trigger] stream_bits(bytes)).len() == 8 * bytes.len(),
    decreases bytes.len(),
{
    broadcast use lemma_bits_of_len;

    if bytes.len() > 0 {
        lemma_stream_bits_len(bytes.drop_first());
    }
}

/// A bit sequence's value is below two to its length.
pub proof fn lemma_bits_to_nat_bound(s: Seq<bool>)
    ensures
        bits_to_nat(s) < pow2(s.len()),
    decreases s.len(),
{
    if s.len() == 0 {
        assert(pow2(0) == 1) by { vstd::arithmetic::power::lemma_pow0(2); }
    } else {
        lemma_bits_to_nat_bound(s.drop_first());
        lemma_pow2_unfold(s.len());
    }
}

/// Only the low `n` bits of `v` matter to `bits_of(v, n)`.
pub proof fn lemma_bits_of_mod(v: nat, n: nat)
    ensures
        bits_of(v, n) == bits_of(v % pow2(n), n),
    decreases n,
{
    broadcast use lemma_bits_of_len;

    lemma_pow2_pos(n);
    if n > 0 {
        let m = v % pow2(n);
        lemma_pow2_unfold(n);
        lemma_pow2_pos((n - 1) as nat);
        assert(pow2(n) == 2 * pow2((n - 1) as nat));
        lemma_mod_breakdown(v as int, 2, pow2((n - 1) as nat) as int);
        assert(m == 2 * ((v / 2) % pow2((n - 1) as nat)) + v % 2);
        assert(0 <= v % 2 < 2) by (nonlinear_arith);
        assert(m % 2 == v % 2) by {
            lemma_mod_multiples_vanish(((v / 2) % pow2((n - 1) as nat)) as int, (v % 2) as int, 2);
        }
        assert(m / 2 == (v / 2) % pow2((n - 1) as nat)) by {
            lemma_div_multiples_vanish_fancy(
                ((v / 2) % pow2((n - 1) as nat)) as int,
                (v % 2) as int,
                2,
            );
        }
        lemma_bits_of_mod(v / 2, (n - 1) as nat);
        assert(bits_of(v, n) == seq![v % 2 == 1] + bits_of(v / 2, (n - 1) as nat));
        assert(bits_of(m, n) == seq![m % 2 == 1] + bits_of(m / 2, (n - 1) as nat));
        assert(bits_of(v, n) =~= bits_of(m, n));
    } else {
        assert(bits_of(v, n) =~= bits_of(v % pow2(n), n));
    }
}

/// Splitting a value at bit `m` splits its bit sequence.
pub proof fn lemma_bits_of_split(a: nat, b: nat, m: nat, n: nat)
    requires
        a < pow2(m),
        m <= n,
    ensures
        bits_of(a + b * pow2(m), n) == bits_of(a, m) + bits_of(b, (n - m) as nat),
    decreases m,
{
    broadcast use lemma_bits_of_len;

    if m == 0 {
        assert(pow2(0) == 1) by { vstd::arithmetic::power::lemma_pow0(2); }
        assert(a == 0);
        assert(bits_of(0, 0) == Seq::<bool>::empty());
        assert(bits_of(b * 1, n) =~= bits_of(0, 0) + bits_of(b, n));
    } else {
        let v = a + b * pow2(m);
        lemma_pow2_unfold(m);
        assert(pow2(m) == 2 * pow2((m - 1) as nat));
        assert(v == a + 2 * (b * pow2((m - 1) as nat))) by {
            assert(b * (2 * pow2((m - 1) as nat)) == 2 * (b * pow2((m - 1) as nat)))
                by (nonlinear_arith);
        }
        assert(v % 2 == a % 2) by {
            lemma_add_mod_noop(a as int, 2 * (b * pow2((m - 1) as nat)) as int, 2);
            lemma_mod_multiples_basic((b * pow2((m - 1) as nat)) as int, 2);
            assert(0 <= a % 2 < 2) by (nonlinear_arith);
            lemma_small_mod((a % 2) as nat, 2);
        }
        assert(v / 2 == a / 2 + b * pow2((m - 1) as nat)) by {
            lemma_hoist_over_denominator(a as int, (b * pow2((m - 1) as nat)) as int, 2nat);
        }
        assert(a / 2 < pow2((m - 1) as nat)) by {
            lemma_pow2_pos((m - 1) as nat);
        }
        lemma_bits_of_split(a / 2, b, (m - 1) as nat, (n - 1) as nat);
        assert(bits_of(v, n) == seq![v % 2 == 1] + bits_of(v / 2, (n - 1) as nat));
        assert(bits_of(a, m) == seq![a % 2 == 1] + bits_of(a / 2, (m - 1) as nat));
        assert(bits_of(v, n) =~= bits_of(a, m) + bits_of(b, (n - m) as nat));
    }
}

/// The value of a concatenation: the second part is shifted by the first's length.
pub proof fn lemma_bits_to_nat_concat(s: Seq<bool>, t: Seq<bool>)
    ensures
        bits_to_nat(s + t) == bits_to_nat(s) + pow2(s.len()) * bits_to_nat(t),
    decreases s.len(),
{
    if s.len() == 0 {
        assert(s + t =~= t);
        assert(pow2(0) == 1) by { vstd::arithmetic::power::lemma_pow0(2); }
    } else {
        assert((s + t).drop_first() =~= s.drop_first() + t);
        lemma_bits_to_nat_concat(s.drop_first(), t);
        lemma_pow2_unfold(s.len());
        assert(pow2(s.len()) == 2 * pow2((s.len() - 1) as nat));
        assert(2 * (bits_to_nat(s.drop_first()) + pow2((s.len() - 1) as nat) * bits_to_nat(t))
            == 2 * bits_to_nat(s.drop_first()) + pow2(s.len()) * bits_to_nat(t))
            by (nonlinear_arith)
            requires pow2(s.len()) == 2 * pow2((s.len() - 1) as nat),
        ;
    }
}

/// Reading back the bits of `v` yields `v` modulo two to the width.
pub proof fn lemma_bits_to_nat_of_bits_of(v: nat, n: nat)
    ensures
        bits_to_nat(bits_of(v, n)) == v % pow2(n),
    decreases n,
{
    if n == 0 {
        assert(pow2(0) == 1) by { vstd::arithmetic::power::lemma_pow0(2); }
    } else {
        lemma_bits_to_nat_of_bits_of(v / 2, (n - 1) as nat);
        lemma_pow2_unfold(n);
        lemma_pow2_pos((n - 1) as nat);
        assert(bits_of(v, n).drop_first() =~= bits_of(v / 2, (n - 1) as nat));
        lemma_mod_breakdown(v as int, 2, pow2((n - 1) as nat) as int);
    }
}

/// The round-trip law of the unaligned bit codec: for every width `n` up to
/// 32 and every value below two to `n`, the bits written by `write_bits`
/// carry exactly that value back through `read_bits`.
pub proof fn lemma_bits_round_trip(v: u32, n: nat)
    requires
        n <= 32,
        (v as nat) < pow2(n),
    ensures
        bits_to_nat(bits_of(v as nat, n)) == v,
{
    lemma_bits_to_nat_of_bits_of(v as nat, n);
    lemma_small_mod(v as nat, pow2(n));
}

/// A value below two to `k` has only zero bits past position `k`.
pub proof fn lemma_bits_of_low(v: nat, k: nat, n: nat)
    requires
        v < pow2(k),
        k <= n,
    ensures
        bits_of(v, n) == bits_of(v, k) + bits_of(0, (n - k) as nat),
{
    assert(v == v + 0 * pow2(k));
    lemma_bits_of_split(v, 0, k, n);
}

/// Appending one byte appends its eight bits.
pub proof fn lemma_stream_bits_push(bytes: Seq<u8>, b: u8)
    ensures
        stream_bits(bytes.push(b)) == stream_bits(bytes) + byte_bits(b),
    decreases bytes.len(),
{
    broadcast use lemma_bits_of_len;

    if bytes.len() == 0 {
        assert(bytes.push(b).drop_first() =~= Seq::<u8>::empty());
        assert(bytes.push(b)[0] == b);
        assert(stream_bits(bytes.push(b)) == byte_bits(b) + stream_bits(Seq::<u8>::empty()));
        assert(stream_bits(bytes) == Seq::<bool>::empty());
        assert(byte_bits(b) + Seq::<bool>::empty() =~= Seq::<bool>::empty() + byte_bits(b));
    } else {
        assert(bytes.push(b).drop_first() =~= bytes.drop_first().push(b));
        lemma_stream_bits_push(bytes.drop_first(), b);
        assert(stream_bits(bytes.push(b)) == byte_bits(bytes[0]) + (stream_bits(bytes.drop_first())
            + byte_bits(b)));
        assert(byte_bits(bytes[0]) + (stream_bits(bytes.drop_first()) + byte_bits(b)) =~= (byte_bits(
            bytes[0],
        ) + stream_bits(bytes.drop_first())) + byte_bits(b));
    }
}

/// A prefix of the bytes carries the matching prefix of the bits.
pub proof fn lemma_stream_bits_take(bytes: Seq<u8>, j: int)
    requires
        0 <= j <= bytes.len(),
    ensures
        stream_bits(bytes.take(j)) == stream_bits(bytes).take(8 * j),
    decreases j,
{
    broadcast use lemma_bits_of_len, lemma_stream_bits_len;

    if j == 0 {
        assert(bytes.take(0) =~= Seq::<u8>::empty());
        assert(stream_bits(bytes).take(0) =~= Seq::<bool>::empty());
    } else {
        lemma_stream_bits_decompose(bytes, j - 1);
        lemma_stream_bits_decompose(bytes.take(j), j - 1);
        assert(bytes.take(j).take(j - 1) =~= bytes.take(j - 1));
        assert(bytes.take(j).skip(j) =~= Seq::<u8>::empty());
        assert(stream_bits(bytes.take(j)) =~= (stream_bits(bytes.take(j - 1)) + byte_bits(
            bytes[j - 1],
        )));
        lemma_stream_bits_take(bytes, j - 1);
        assert(stream_bits(bytes.take(j)) =~= stream_bits(bytes).take(8 * j));
    }
}

/// A byte stream's bits decompose around any one byte.
pub proof fn lemma_stream_bits_decompose(bytes: Seq<u8>, j: int)
    requires
        0 <= j < bytes.len(),
    ensures
        stream_bits(bytes) == stream_bits(bytes.take(j)) + byte_bits(bytes[j]) + stream_bits(
            bytes.skip(j + 1),
        ),
    decreases j,
{
    broadcast use lemma_bits_of_len, lemma_stream_bits_len;

    if j == 0 {
        assert(bytes.take(0) =~= Seq::<u8>::empty());
        assert(bytes.skip(1) =~= bytes.drop_first());
        assert(stream_bits(bytes.take(0)) + byte_bits(bytes[0]) + stream_bits(bytes.skip(1))
            =~= byte_bits(bytes[0]) + stream_bits(bytes.drop_first()));
    } else {
        lemma_stream_bits_decompose(bytes.drop_first(), j - 1);
        assert(bytes.drop_first().take(j - 1) =~= bytes.take(j).drop_first());
        assert(bytes.drop_first()[j - 1] == bytes[j]);
        assert(bytes.drop_first().skip(j) =~= bytes.skip(j + 1));
        assert(stream_bits(bytes) == byte_bits(bytes[0]) + stream_bits(bytes.drop_first()));
        assert(stream_bits(bytes.take(j)) == byte_bits(bytes[0]) + stream_bits(
            bytes.take(j).drop_first(),
        ));
        assert(byte_bits(bytes[0]) + (stream_bits(bytes.take(j).drop_first()) + byte_bits(bytes[j])
            + stream_bits(bytes.skip(j + 1))) =~= (byte_bits(bytes[0]) + stream_bits(
            bytes.take(j).drop_first(),
        )) + byte_bits(bytes[j]) + stream_bits(bytes.skip(j + 1)));
    }
}

} // verus!

verus! {

/// Zero bits that align a bit count up to the next byte boundary.
pub open spec fn pad_len(n: nat) -> nat {
    ((8 - n % 8) % 8) as nat
}

/// A bit sequence padded with zero bits to a whole number of bytes.
pub open spec fn padded(s: Seq<bool>) -> Seq<bool> {
    s + bits_of(0, pad_len(s.len()))
}

/// Two to the `e`, as a machine word.
pub(crate) fn pow2_u32(e: u32) -> (r: u32)
    requires
        e < 32,
    ensures
        r as nat == pow2(e as nat),
        r >= 1,
{
    proof {
        lemma2_to64();
        if e < 31 {
            lemma_pow2_strictly_increases(e as nat, 31);
        }
        vstd::bits::lemma_u32_shl_is_mul(1u32, e);
    }
    1u32 << e
}

/// Writes a growing byte buffer with a byte cursor and a 0..7 bit offset.
/// Aligned operations first advance past any partial bit; unaligned bit
/// fields fill each byte from its least significant bit upward.
pub struct HQMMessageWriter {
    buf: Vec<u8>,
    pos: usize,
    bit_pos: u8,
}

impl HQMMessageWriter {
    /// The cursor sits inside the last byte, and the unwritten high bits of
    /// a partial final byte are zero.
    pub closed spec fn wf(&self) -> bool {
        &&& self.bit_pos < 8
        &&& self.buf@.len() == self.pos + (if self.bit_pos > 0 {
            1int
        } else {
            0int
        })
        &&& (self.bit_pos > 0 ==> (self.buf@[self.pos as int] as nat) < pow2(self.bit_pos as nat))
    }

    /// Every bit written so far, in stream order.
    pub closed spec fn bits(&self) -> Seq<bool> {
        stream_bits(self.buf@).take(8 * self.pos + self.bit_pos as int)
    }

    pub fn new() -> (w: Self)
        ensures
            w.wf(),
            w.bits() == Seq::<bool>::empty(),
    {
        let w = HQMMessageWriter { buf: Vec::new(), pos: 0, bit_pos: 0 };
        proof {
            assert(w.bits() =~= Seq::<bool>::empty());
        }
        w
    }

    /// Writes the low `k` bits of `v` into the current byte, which they fit.
    fn write_chunk(&mut self, k: u8, v: u8)
        requires
            old(self).wf(),
            1 <= k,
            k + old(self).bit_pos <= 8,
            (v as nat) < pow2(k as nat),
        ensures
            final(self).wf(),
            final(self).bits() == old(self).bits() + bits_of(v as nat, k as nat),
    {
        broadcast use lemma_bits_of_len, lemma_stream_bits_len;
        broadcast use vstd::std_specs::vec::axiom_spec_len;

        let ghost obits = self.bits();
        if self.bit_pos == 0 {
            let ghost obuf = self.buf@;
            self.buf.push(v);
            proof {
                lemma_stream_bits_push(obuf, v);
                assert(obits =~= stream_bits(obuf));
                lemma_bits_of_low(v as nat, k as nat, 8);
            }
            let _filled = self.buf.len();
            if k == 8 {
                self.pos = self.pos + 1;
            } else {
                self.bit_pos = k;
            }
            proof {
                assert(self.bits() =~= obits + bits_of(v as nat, k as nat));
                if k < 8 {
                    assert(self.buf@[self.pos as int] == v);
                }
            }
        } else {
            let bp = self.bit_pos;
            let w = self.buf[self.pos];
            let m = pow2_u32(bp as u32);
            proof {
                lemma_pow2_adds(bp as nat, k as nat);
                lemma2_to64();
                if bp + k < 8 {
                    lemma_pow2_strictly_increases((bp + k) as nat, 8);
                }
                if bp < 7 {
                    lemma_pow2_strictly_increases(bp as nat, 7);
                }
                assert((v as nat) * pow2(bp as nat) <= (pow2(k as nat) - 1) * pow2(bp as nat))
                    by (nonlinear_arith)
                    requires (v as nat) < pow2(k as nat),
                ;
                assert((pow2(k as nat) - 1) * pow2(bp as nat) == pow2((k + bp) as nat) - pow2(
                    bp as nat,
                )) by (nonlinear_arith)
                    requires pow2((k + bp) as nat) == pow2(k as nat) * pow2(bp as nat),
                ;
            }
            let nw: u8 = w + (v * (m as u8));
            let ghost obuf = self.buf@;
            self.buf[self.pos] = nw;
            let _filled = self.buf.len();
            if bp + k == 8 {
                self.pos = self.pos + 1;
                self.bit_pos = 0;
            } else {
                self.bit_pos = bp + k;
            }
            proof {
                let j = self.pos as int - (if self.bit_pos > 0 { 0int } else { 1int });
                assert(self.buf@ == obuf.update(j, nw));
                lemma_stream_bits_decompose(obuf, j);
                lemma_stream_bits_decompose(self.buf@, j);
                assert(self.buf@.take(j) =~= obuf.take(j));
                assert(self.buf@.skip(j + 1) =~= obuf.skip(j + 1));
                assert(obuf.skip(j + 1) =~= Seq::<u8>::empty());
                // The old partial byte carries the old bits past the whole bytes.
                assert(obits =~= stream_bits(obuf.take(j)) + bits_of(w as nat, bp as nat)) by {
                    lemma_bits_of_low(w as nat, bp as nat, 8);
                    lemma_stream_bits_take(obuf, j);
                }
                // The new byte splits into the old partial bits and the chunk.
                assert(byte_bits(nw) == bits_of(w as nat, bp as nat) + bits_of(
                    v as nat,
                    (8 - bp) as nat,
                )) by {
                    lemma_bits_of_split(w as nat, v as nat, bp as nat, 8);
                }
                assert(bits_of(v as nat, (8 - bp) as nat) == bits_of(v as nat, k as nat) + bits_of(
                    0,
                    (8 - bp - k) as nat,
                )) by {
                    lemma_bits_of_low(v as nat, k as nat, (8 - bp) as nat);
                }
                assert(self.bits() =~= obits + bits_of(v as nat, k as nat));
                if self.bit_pos > 0 {
                    assert((nw as nat) < pow2(self.bit_pos as nat));
                }
            }
        }
    }

    /// The whole buffer carries the written bits plus the zero padding of a
    /// partial final byte.
    proof fn lemma_buffer_padded(&self)
        requires
            self.wf(),
        ensures
            stream_bits(self.buf@) == padded(self.bits()),
    {
        broadcast use lemma_bits_of_len, lemma_stream_bits_len;

        let n = (8 * self.pos + self.bit_pos as int) as nat;
        assert((8 * self.pos as int + self.bit_pos as int) % 8 == self.bit_pos as int) by {
            lemma_mod_multiples_vanish(self.pos as int, self.bit_pos as int, 8);
            lemma_small_mod(self.bit_pos as nat, 8);
        }
        if self.bit_pos == 0 {
            assert(stream_bits(self.buf@) =~= padded(self.bits()));
        } else {
            let j = self.pos as int;
            let w = self.buf@[j];
            lemma_stream_bits_decompose(self.buf@, j);
            lemma_stream_bits_take(self.buf@, j);
            assert(self.buf@.skip(j + 1) =~= Seq::<u8>::empty());
            lemma_bits_of_low(w as nat, self.bit_pos as nat, 8);
            assert(self.bits() =~= stream_bits(self.buf@.take(j)) + bits_of(
                w as nat,
                self.bit_pos as nat,
            ));
            assert(pad_len(n) == 8 - self.bit_pos);
            assert(stream_bits(self.buf@) =~= padded(self.bits()));
        }
    }

    /// Advances the cursor past any partial byte; the skipped bits are zero.
    fn align(&mut self)
        requires
            old(self).wf(),
        ensures
            final(self).wf(),
            final(self).bits() == padded(old(self).bits()),
    {
        proof {
            self.lemma_buffer_padded();
        }
        let _filled = self.buf.len();
        if self.bit_pos > 0 {
            self.bit_pos = 0;
            self.pos = self.pos + 1;
        }
        proof {
            broadcast use lemma_bits_of_len, lemma_stream_bits_len;

            assert(final(self).bits() =~= stream_bits(self.buf@));
        }
    }

    /// Writes the low `n` bits of `v` at the bit cursor, least significant
    /// bit first, continuing into later bytes as needed.
    pub fn write_bits(&mut self, n: u8, v: u32)
        requires
            old(self).wf(),
            n <= 32,
        ensures
            final(self).wf(),
            final(self).bits() == old(self).bits() + bits_of(v as nat, n as nat),
    {
        broadcast use lemma_bits_of_len;

        let ghost obits = self.bits();
        let mut bits_remaining: u8 = n;
        while bits_remaining > 0
            invariant
                self.wf(),
                bits_remaining <= n,
                n <= 32,
                self.bits() == obits + bits_of(v as nat, (n - bits_remaining) as nat),
            decreases bits_remaining,
        {
            let ghost p = (n - bits_remaining) as nat;
            let written: u8 = n - bits_remaining;
            let bits_possible: u8 = 8 - self.bit_pos;
            let chunk_len: u8 = if bits_remaining < bits_possible {
                bits_remaining
            } else {
                bits_possible
            };
            let divisor = pow2_u32(written as u32);
            let modulus = pow2_u32(chunk_len as u32);
            proof {
                lemma_pow2_pos(p);
                lemma_pow2_pos(chunk_len as nat);
            }
            let chunk_word: u32 = (v / divisor) % modulus;
            proof {
                lemma2_to64();
                if (chunk_len as nat) < 8 {
                    lemma_pow2_strictly_increases(chunk_len as nat, 8);
                }
                lemma_mod_bound((v / divisor) as int, pow2(chunk_len as nat) as int);
            }
            let chunk: u8 = chunk_word as u8;
            self.write_chunk(chunk_len, chunk);
            proof {
                let vv = v as nat;
                lemma_fundamental_div_mod(vv as int, pow2(p) as int);
                lemma_mod_bound(vv as int, pow2(p) as int);
                assert(vv == (vv % pow2(p)) + (vv / pow2(p)) * pow2(p)) by (nonlinear_arith)
                    requires vv == pow2(p) * (vv / pow2(p)) + vv % pow2(p),
                ;
                lemma_bits_of_split(vv % pow2(p), vv / pow2(p), p, (p + chunk_len) as nat);
                lemma_bits_of_mod(vv, p);
                lemma_bits_of_mod(vv / pow2(p), chunk_len as nat);
                assert(bits_of(vv, (p + chunk_len) as nat) == bits_of(vv, p) + bits_of(
                    chunk as nat,
                    chunk_len as nat,
                ));
                assert(obits + bits_of(vv, p) + bits_of(chunk as nat, chunk_len as nat) =~= obits
                    + bits_of(vv, (p + chunk_len) as nat));
            }
            bits_remaining = bits_remaining - chunk_len;
        }
        proof {
            assert(self.bits() =~= obits + bits_of(v as nat, n as nat));
        }
    }

    /// Aligns to the next byte and writes one byte.
    pub fn write_byte_aligned(&mut self, v: u8)
        requires
            old(self).wf(),
        ensures
            final(self).wf(),
            final(self).bits() == padded(old(self).bits()) + byte_bits(v),
    {
        self.align();
        self.write_bits(8, v as u32);
    }

    /// Aligns to the next byte and writes the bytes in order.
    pub fn write_bytes_aligned(&mut self, v: &[u8])
        requires
            old(self).wf(),
        ensures
            final(self).wf(),
            final(self).bits() == padded(old(self).bits()) + stream_bits(v@),
    {
        broadcast use lemma_bits_of_len, lemma_stream_bits_len;

        self.align();
        let ghost abits = self.bits();
        let mut i: usize = 0;
        while i < v.len()
            invariant
                self.wf(),
                i <= v@.len(),
                self.bits() == abits + stream_bits(v@.take(i as int)),
            decreases v@.len() - i,
        {
            let b = v[i];
            self.write_bits(8, b as u32);
            proof {
                assert(v@.take(i + 1) =~= v@.take(i as int).push(b));
                lemma_stream_bits_push(v@.take(i as int), b);
                assert(abits + stream_bits(v@.take(i as int)) + byte_bits(b) =~= abits
                    + stream_bits(v@.take(i + 1)));
            }
            i = i + 1;
        }
        proof {
            assert(v@.take(v@.len() as int) =~= v@);
        }
    }

    /// Aligns, then writes exactly `n` bytes: a truncated or zero-extended
    /// copy of `v`.
    pub fn write_bytes_aligned_padded(&mut self, n: usize, v: &[u8])
        requires
            old(self).wf(),
        ensures
            final(self).wf(),
            final(self).bits() == padded(old(self).bits()) + stream_bits(
                Seq::new(n as nat, |i: int| if i < v@.len() { v@[i] } else { 0u8 }),
            ),
    {
        broadcast use lemma_bits_of_len, lemma_stream_bits_len;

        let ghost target = Seq::new(n as nat, |i: int| if i < v@.len() { v@[i] } else { 0u8 });
        self.align();
        let ghost abits = self.bits();
        let mut i: usize = 0;
        while i < n
            invariant
                self.wf(),
                i <= n,
                target == Seq::new(n as nat, |i: int| if i < v@.len() { v@[i] } else { 0u8 }),
                self.bits() == abits + stream_bits(target.take(i as int)),
            decreases n - i,
        {
            let b = if i < v.len() {
                v[i]
            } else {
                0u8
            };
            self.write_bits(8, b as u32);
            proof {
                assert(target.take(i + 1) =~= target.take(i as int).push(b));
                lemma_stream_bits_push(target.take(i as int), b);
                assert(abits + stream_bits(target.take(i as int)) + byte_bits(b) =~= abits
                    + stream_bits(target.take(i + 1)));
            }
            i = i + 1;
        }
        proof {
            assert(target.take(n as int) =~= target);
        }
    }

    /// Aligns to the next byte and writes a 32-bit word, little-endian.
    pub fn write_u32_aligned(&mut self, v: u32)
        requires
            old(self).wf(),
        ensures
            final(self).wf(),
            final(self).bits() == padded(old(self).bits()) + bits_of(v as nat, 32),
    {
        self.align();
        self.write_bits(32, v);
    }

    /// Writes a position as the absolute form: header bits `11`, then the
    /// value in `n` bits.
    pub fn write_pos(&mut self, n: u8, v: u32)
        requires
            old(self).wf(),
            n <= 32,
        ensures
            final(self).wf(),
            final(self).bits() == old(self).bits() + bits_of(3, 2) + bits_of(v as nat, n as nat),
    {
        self.write_bits(2, 3);
        self.write_bits(n, v);
    }

    /// Writes a position as the smallest form that carries it: a 3, 6 or
    /// 12-bit signed delta against `old_value`, else the absolute form.
    pub fn write_pos_delta(&mut self, n: u8, v: u32, old_value: u32)
        requires
            old(self).wf(),
            n <= 32,
        ensures
            final(self).wf(),
            ({
                let d = v as int - old_value as int;
                let bits0 = old(self).bits();
                if -4 <= d <= 3 {
                    final(self).bits() == bits0 + bits_of(0, 2) + bits_of(delta_code(d, 3), 3)
                } else if -32 <= d <= 31 {
                    final(self).bits() == bits0 + bits_of(1, 2) + bits_of(delta_code(d, 6), 6)
                } else if -2048 <= d <= 2047 {
                    final(self).bits() == bits0 + bits_of(2, 2) + bits_of(delta_code(d, 12), 12)
                } else {
                    final(self).bits() == bits0 + bits_of(3, 2) + bits_of(v as nat, n as nat)
                }
            }),
    {
        proof {
            lemma2_to64();
        }
        let d: i64 = v as i64 - old_value as i64;
        if -4 <= d && d <= 3 {
            let e: u32 = if d >= 0 {
                d as u32
            } else {
                (d + 8) as u32
            };
            self.write_bits(2, 0);
            self.write_bits(3, e);
        } else if -32 <= d && d <= 31 {
            let e: u32 = if d >= 0 {
                d as u32
            } else {
                (d + 64) as u32
            };
            self.write_bits(2, 1);
            self.write_bits(6, e);
        } else if -2048 <= d && d <= 2047 {
            let e: u32 = if d >= 0 {
                d as u32
            } else {
                (d + 4096) as u32
            };
            self.write_bits(2, 2);
            self.write_bits(12, e);
        } else {
            self.write_bits(2, 3);
            self.write_bits(n, v);
        }
    }

    /// The count of bytes the written bits occupy.
    pub fn get_bytes_written(&self) -> (r: usize)
        requires
            self.wf(),
        ensures
            8 * r == padded(self.bits()).len(),
    {
        proof {
            broadcast use lemma_bits_of_len, lemma_stream_bits_len;

            self.lemma_buffer_padded();
        }
        let _filled = self.buf.len();
        if self.bit_pos > 0 {
            self.pos + 1
        } else {
            self.pos
        }
    }

    /// The written bytes; a partial final byte is padded with zero bits.
    pub fn get_slice(&self) -> (r: &[u8])
        requires
            self.wf(),
        ensures
            stream_bits(r@) == padded(self.bits()),
    {
        proof {
            self.lemma_buffer_padded();
        }
        self.buf.as_slice()
    }
}

/// One quantized world object, as a snapshot's object table carries it.
#[derive(Debug, Copy, Clone, PartialEq, Eq)]
pub enum HQMObjectPacket {
    Empty,
    Puck(HQMPuckPacket),
    Skater(HQMSkaterPacket),
}

/// A skater's quantized fields: positions in 17-bit units, the stick offset
/// in 13-bit units, orientations as two encoded columns, head and body
/// angles in 16-bit units.
#[derive(Debug, Copy, Clone, PartialEq, Eq)]
pub struct HQMSkaterPacket {
    pub pos: (u32, u32, u32),
    pub rot: (u32, u32),
    pub stick_pos: (u32, u32, u32),
    pub stick_rot: (u32, u32),
    pub head_rot: u32,
    pub body_rot: u32,
}

/// The puck's quantized position and orientation columns.
#[derive(Debug, Copy, Clone, PartialEq, Eq)]
pub struct HQMPuckPacket {
    pub pos: (u32, u32, u32),
    pub rot: (u32, u32),
}

/// The bits of one position field in the absolute form: header `11`, then
/// the value in `n` bits.
pub open spec fn pos_bits(v: u32, n: nat) -> Seq<bool> {
    bits_of(3, 2) + bits_of(v as nat, n)
}

/// The bits of a skater's object record past the type bit.
pub open spec fn skater_packet_bits(p: HQMSkaterPacket) -> Seq<bool> {
    pos_bits(p.pos.0, 17) + pos_bits(p.pos.1, 17) + pos_bits(p.pos.2, 17) + bits_of(
        p.rot.0 as nat,
        31,
    ) + bits_of(p.rot.1 as nat, 31) + pos_bits(p.stick_pos.0, 13) + pos_bits(p.stick_pos.1, 13)
        + pos_bits(p.stick_pos.2, 13) + bits_of(p.stick_rot.0 as nat, 25) + bits_of(
        p.stick_rot.1 as nat,
        25,
    ) + pos_bits(p.head_rot, 16) + pos_bits(p.body_rot, 16)
}

/// The bits of the puck's object record past the type bit.
pub open spec fn puck_packet_bits(p: HQMPuckPacket) -> Seq<bool> {
    pos_bits(p.pos.0, 17) + pos_bits(p.pos.1, 17) + pos_bits(p.pos.2, 17) + bits_of(
        p.rot.0 as nat,
        31,
    ) + bits_of(p.rot.1 as nat, 31)
}

/// One entry of the snapshot's object table: a presence bit, then for a
/// present object a type bit (zero for a skater, one for the puck) and the
/// object's fields.
pub open spec fn object_packet_bits(o: HQMObjectPacket) -> Seq<bool> {
    match o {
        HQMObjectPacket::Empty => bits_of(0, 1),
        HQMObjectPacket::Skater(p) => bits_of(1, 1) + bits_of(0, 1) + skater_packet_bits(p),
        HQMObjectPacket::Puck(p) => bits_of(1, 1) + bits_of(1, 1) + puck_packet_bits(p),
    }
}

impl HQMMessageWriter {
    /// Writes one object-table entry, positions in the absolute form.
    #[verifier::rlimit(60)]
    pub fn write_object_packet(&mut self, o: &HQMObjectPacket)
        requires
            old(self).wf(),
        ensures
            final(self).wf(),
            final(self).bits() == old(self).bits() + object_packet_bits(*o),
    {
        broadcast use lemma_bits_of_len;

        let ghost obits = self.bits();
        match o {
            HQMObjectPacket::Empty => {
                self.write_bits(1, 0);
            },
            HQMObjectPacket::Skater(p) => {
                self.write_bits(1, 1);
                self.write_bits(1, 0);
                self.write_pos(17, p.pos.0);
                self.write_pos(17, p.pos.1);
                self.write_pos(17, p.pos.2);
                self.write_bits(31, p.rot.0);
                self.write_bits(31, p.rot.1);
                proof {
                    assert(self.bits() =~= obits + bits_of(1, 1) + bits_of(0, 1) + pos_bits(
                        p.pos.0,
                        17,
                    ) + pos_bits(p.pos.1, 17) + pos_bits(p.pos.2, 17) + bits_of(p.rot.0 as nat, 31)
                        + bits_of(p.rot.1 as nat, 31));
                }
                self.write_pos(13, p.stick_pos.0);
                self.write_pos(13, p.stick_pos.1);
                self.write_pos(13, p.stick_pos.2);
                self.write_bits(25, p.stick_rot.0);
                self.write_bits(25, p.stick_rot.1);
                self.write_pos(16, p.head_rot);
                self.write_pos(16, p.body_rot);
                proof {
                    assert(self.bits() =~= obits + object_packet_bits(*o));
                }
            },
            HQMObjectPacket::Puck(p) => {
                self.write_bits(1, 1);
                self.write_bits(1, 1);
                self.write_pos(17, p.pos.0);
                self.write_pos(17, p.pos.1);
                self.write_pos(17, p.pos.2);
                self.write_bits(31, p.rot.0);
                self.write_bits(31, p.rot.1);
                proof {
                    assert(self.bits() =~= obits + object_packet_bits(*o));
                }
            },
        }
    }
}

/// Why a datagram failed to decode.  The datagram is dropped; the session
/// is kept.
#[derive(Debug, Clone, Copy, PartialEq, Eq, Structural)]
pub enum HQMDecodeError {
    /// A read ran past the end of the buffer.
    PastEnd,
    /// A delta-coded position arrived with no previous value to add it to.
    MissingReference,
    /// A delta-coded position fell outside its bit field.
    OutOfRange,
}

/// Reads a borrowed byte buffer with a byte cursor and a 0..7 bit offset.
pub struct HQMMessageReader<'a> {
    buf: &'a [u8],
    pos: usize,
    bit_pos: u8,
}

impl<'a> HQMMessageReader<'a> {
    /// The cursor lies within the buffer, which is small enough that bit
    /// counts fit the machine word.
    pub closed spec fn wf(&self) -> bool {
        &&& self.bit_pos < 8
        &&& 8 * self.pos + self.bit_pos as int <= 8 * self.buf@.len()
        &&& 8 * self.buf@.len() + 64 <= usize::MAX
    }

    /// The whole bit stream carried by the buffer.
    pub closed spec fn stream(&self) -> Seq<bool> {
        stream_bits(self.buf@)
    }

    /// The next bit to be read.
    pub closed spec fn cursor(&self) -> int {
        8 * self.pos + self.bit_pos as int
    }

    pub fn new(buf: &'a [u8]) -> (r: Self)
        requires
            8 * buf@.len() + 64 <= usize::MAX,
        ensures
            r.wf(),
            r.stream() == stream_bits(buf@),
            r.cursor() == 0,
    {
        HQMMessageReader { buf, pos: 0, bit_pos: 0 }
    }

    /// Reads the next `k` bits of the current byte, which it does not leave.
    fn read_chunk(&mut self, k: u8) -> (r: u8)
        requires
            old(self).wf(),
            1 <= k,
            k + old(self).bit_pos <= 8,
            old(self).cursor() + k <= old(self).stream().len(),
        ensures
            final(self).wf(),
            final(self).stream() == old(self).stream(),
            final(self).cursor() == old(self).cursor() + k,
            (r as nat) < pow2(k as nat),
            r as nat == bits_to_nat(
                old(self).stream().subrange(old(self).cursor(), old(self).cursor() + k as int),
            ),
    {
        broadcast use lemma_bits_of_len, lemma_stream_bits_len;

        let bp = self.bit_pos;
        let ghost c = self.cursor();
        proof {
            assert(8 * self.pos < 8 * self.buf@.len());
        }
        let b = self.buf[self.pos];
        let divisor = pow2_u32(bp as u32);
        let modulus = pow2_u32(k as u32);
        proof {
            lemma2_to64();
            if (k as nat) < 8 {
                lemma_pow2_strictly_increases(k as nat, 8);
            }
            lemma_mod_bound((b as u32 / divisor) as int, pow2(k as nat) as int);
        }
        let chunk: u8 = ((b as u32 / divisor) % modulus) as u8;
        if bp + k == 8 {
            self.pos = self.pos + 1;
            self.bit_pos = 0;
        } else {
            self.bit_pos = bp + k;
        }
        proof {
            let bb = b as nat;
            let lo = bb % pow2(bp as nat);
            let mid = (bb / pow2(bp as nat)) % pow2(k as nat);
            let hi = (bb / pow2(bp as nat)) / pow2(k as nat);
            lemma_pow2_pos(bp as nat);
            lemma_pow2_pos(k as nat);
            lemma_fundamental_div_mod(bb as int, pow2(bp as nat) as int);
            lemma_fundamental_div_mod((bb / pow2(bp as nat)) as int, pow2(k as nat) as int);
            lemma_mod_bound(bb as int, pow2(bp as nat) as int);
            lemma_mod_bound((bb / pow2(bp as nat)) as int, pow2(k as nat) as int);
            assert(bb / pow2(bp as nat) == mid + hi * pow2(k as nat)) by (nonlinear_arith)
                requires bb / pow2(bp as nat) == pow2(k as nat) * hi + mid,
            ;
            assert(bb == lo + (bb / pow2(bp as nat)) * pow2(bp as nat)) by (nonlinear_arith)
                requires bb == pow2(bp as nat) * (bb / pow2(bp as nat)) + lo,
            ;
            lemma_bits_of_split(lo, bb / pow2(bp as nat), bp as nat, 8);
            lemma_bits_of_split(mid, hi, k as nat, (8 - bp) as nat);
            assert(byte_bits(b) == bits_of(lo, bp as nat) + (bits_of(mid, k as nat) + bits_of(
                hi,
                (8 - bp - k) as nat,
            )));
            let j = c / 8;
            lemma_stream_bits_decompose(self.buf@, j);
            lemma_stream_bits_take(self.buf@, j);
            assert(old(self).stream().subrange(c, c + k as int) =~= bits_of(mid, k as nat));
            lemma_bits_to_nat_of_bits_of(mid, k as nat);
            lemma_small_mod(mid, pow2(k as nat));
        }
        chunk
    }

    /// Reads `b` bits at the bit cursor, least significant bit first.
    /// Returns the value they carry, or an error if fewer than `b` bits
    /// remain, in which case the reader is unchanged.
    pub fn read_bits(&mut self, b: u8) -> (r: Result<u32, HQMDecodeError>)
        requires
            old(self).wf(),
            b <= 32,
        ensures
            final(self).wf(),
            final(self).stream() == old(self).stream(),
            old(self).cursor() + b <= old(self).stream().len() ==> {
                &&& r is Ok
                &&& r->Ok_0 as nat == bits_to_nat(
                    old(self).stream().subrange(old(self).cursor(), old(self).cursor() + b as int),
                )
                &&& final(self).cursor() == old(self).cursor() + b
            },
            old(self).cursor() + b > old(self).stream().len() ==> r == Err::<
                u32,
                HQMDecodeError,
            >(HQMDecodeError::PastEnd) && *final(self) == *old(self),
    {
        broadcast use lemma_bits_of_len, lemma_stream_bits_len;

        let len = self.buf.len();
        proof {
            assert(self.pos <= len);
            if self.pos == len {
                assert(self.bit_pos == 0);
            }
        }
        let avail: usize = 8 * (len - self.pos) - self.bit_pos as usize;
        if (b as usize) > avail {
            return Err(HQMDecodeError::PastEnd);
        }
        let ghost c0 = self.cursor();
        let ghost target = self.stream().subrange(c0, c0 + b as int);
        let mut res: u32 = 0;
        let mut bits_remaining: u8 = b;
        while bits_remaining > 0
            invariant
                self.wf(),
                bits_remaining <= b,
                b <= 32,
                self.stream() == old(self).stream(),
                0 <= c0,
                target == self.stream().subrange(c0, c0 + b as int),
                c0 + b <= self.stream().len(),
                self.cursor() == c0 + (b - bits_remaining),
                res as nat == bits_to_nat(target.take((b - bits_remaining) as int)),
            decreases bits_remaining,
        {
            let ghost p = (b - bits_remaining) as nat;
            let read_so_far: u8 = b - bits_remaining;
            let bits_possible: u8 = 8 - self.bit_pos;
            let chunk_len: u8 = if bits_remaining < bits_possible {
                bits_remaining
            } else {
                bits_possible
            };
            let chunk = self.read_chunk(chunk_len);
            let factor = pow2_u32(read_so_far as u32);
            proof {
                let done = target.take(p as int);
                let piece = target.subrange(p as int, p + chunk_len as int);
                assert(piece =~= self.stream().subrange(
                    c0 + p as int,
                    c0 + p + chunk_len as int,
                ));
                lemma_bits_to_nat_bound(done);
                lemma_pow2_adds(p, chunk_len as nat);
                lemma2_to64();
                if p + chunk_len < 32 {
                    lemma_pow2_strictly_increases((p + chunk_len) as nat, 32);
                }
                assert((chunk as nat) * pow2(p) <= (pow2(chunk_len as nat) - 1) * pow2(p))
                    by (nonlinear_arith)
                    requires (chunk as nat) < pow2(chunk_len as nat),
                ;
                assert((pow2(chunk_len as nat) - 1) * pow2(p) == pow2((p + chunk_len as int) as nat)
                    - pow2(p)) by (nonlinear_arith)
                    requires pow2((p + chunk_len as int) as nat) == pow2(chunk_len as nat) * pow2(p),
                ;
                assert(target.take(p + chunk_len as int) =~= done + piece);
                lemma_bits_to_nat_concat(done, piece);
            }
            res = res + chunk as u32 * factor;
            bits_remaining = bits_remaining - chunk_len;
        }
        proof {
            assert(target.take(b as int) =~= target);
        }
        Ok(res)
    }

    /// Advances the cursor past any partial byte.
    fn align(&mut self)
        requires
            old(self).wf(),
        ensures
            final(self).wf(),
            final(self).stream() == old(self).stream(),
            final(self).cursor() == old(self).cursor() + pad_len(old(self).cursor() as nat),
            final(self).cursor() % 8 == 0,
    {
        proof {
            lemma_mod_multiples_vanish(self.pos as int, self.bit_pos as int, 8);
            lemma_small_mod(self.bit_pos as nat, 8);
            if self.bit_pos > 0 {
                assert(8 * self.pos < 8 * self.buf@.len());
            }
        }
        let len = self.buf.len();
        if self.bit_pos > 0 {
            self.bit_pos = 0;
            self.pos = self.pos + 1;
        }
        proof {
            lemma_mod_multiples_basic(self.pos as int, 8);
        }
    }

    /// The bit position of the cursor from the start of the buffer.
    pub fn bit_position(&self) -> (r: usize)
        requires
            self.wf(),
        ensures
            r == self.cursor(),
    {
        8 * self.pos + self.bit_pos as usize
    }

    /// Aligns, then reads one byte.
    pub fn read_byte_aligned(&mut self) -> (r: Result<u8, HQMDecodeError>)
        requires
            old(self).wf(),
        ensures
            final(self).wf(),
            final(self).stream() == old(self).stream(),
            ({
                let s = old(self).stream();
                let c = old(self).cursor() + pad_len(old(self).cursor() as nat);
                if c + 8 <= s.len() {
                    &&& r is Ok
                    &&& r->Ok_0 as nat == bits_to_nat(s.subrange(c, c + 8))
                    &&& final(self).cursor() == c + 8
                } else {
                    &&& r == Err::<u8, HQMDecodeError>(HQMDecodeError::PastEnd)
                    &&& final(self).cursor() == c
                }
            }),
    {
        self.align();
        let ghost c = self.cursor();
        match self.read_bits(8) {
            Ok(v) => {
                proof {
                    lemma_bits_to_nat_bound(old(self).stream().subrange(c, c + 8));
                    lemma2_to64();
                }
                Ok(v as u8)
            },
            Err(e) => Err(e),
        }
    }

    /// Aligns, then reads `n` bytes.
    pub fn read_bytes_aligned(&mut self, n: usize) -> (r: Result<Vec<u8>, HQMDecodeError>)
        requires
            old(self).wf(),
        ensures
            final(self).wf(),
            final(self).stream() == old(self).stream(),
            ({
                let s = old(self).stream();
                let c = old(self).cursor() + pad_len(old(self).cursor() as nat);
                if c + 8 * n <= s.len() {
                    &&& r is Ok
                    &&& r->Ok_0@.len() == n
                    &&& forall|i: int|
                        0 <= i < n ==> r->Ok_0@[i] as nat == bits_to_nat(
                            #[trigger] s.subrange(c + 8 * i, c + 8 * i + 8),
                        )
                    &&& final(self).cursor() == c + 8 * n
                } else {
                    &&& r == Err::<Vec<u8>, HQMDecodeError>(HQMDecodeError::PastEnd)
                    &&& final(self).cursor() == c
                }
            }),
    {
        broadcast use lemma_stream_bits_len;

        self.align();
        let ghost c = self.cursor();
        let len = self.buf.len();
        if n > len - self.pos {
            proof {
                assert(c + 8 * n > self.stream().len());
            }
            return Err(HQMDecodeError::PastEnd);
        }
        let mut out: Vec<u8> = Vec::new();
        let mut i: usize = 0;
        while i < n
            invariant
                self.wf(),
                i <= n,
                0 <= c,
                self.stream() == old(self).stream(),
                c + 8 * n <= self.stream().len(),
                self.cursor() == c + 8 * i,
                self.cursor() % 8 == 0,
                out@.len() == i,
                forall|j: int|
                    0 <= j < i ==> out@[j] as nat == bits_to_nat(
                        #[trigger] self.stream().subrange(c + 8 * j, c + 8 * j + 8),
                    ),
            decreases n - i,
        {
            let b = self.read_chunk(8);
            out.push(b);
            proof {
                lemma_mod_multiples_basic((c + 8 * i + 8) / 8, 8);
                assert((c + 8 * i + 8) % 8 == 0) by {
                    lemma_mod_multiples_basic(c / 8 + i + 1, 8);
                    assert(c + 8 * i + 8 == 8 * (c / 8 + i + 1));
                }
            }
            i = i + 1;
        }
        Ok(out)
    }

    /// Aligns, then reads a 16-bit word, little-endian.
    pub fn read_u16_aligned(&mut self) -> (r: Result<u16, HQMDecodeError>)
        requires
            old(self).wf(),
        ensures
            final(self).wf(),
            final(self).stream() == old(self).stream(),
            ({
                let s = old(self).stream();
                let c = old(self).cursor() + pad_len(old(self).cursor() as nat);
                if c + 16 <= s.len() {
                    &&& r is Ok
                    &&& r->Ok_0 as nat == bits_to_nat(s.subrange(c, c + 16))
                    &&& final(self).cursor() == c + 16
                } else {
                    &&& r == Err::<u16, HQMDecodeError>(HQMDecodeError::PastEnd)
                    &&& final(self).cursor() == c
                }
            }),
    {
        self.align();
        let ghost c = self.cursor();
        match self.read_bits(16) {
            Ok(v) => {
                proof {
                    lemma_bits_to_nat_bound(old(self).stream().subrange(c, c + 16));
                    lemma2_to64();
                }
                Ok(v as u16)
            },
            Err(e) => Err(e),
        }
    }

    /// Aligns, then reads a 32-bit word, little-endian.
    pub fn read_u32_aligned(&mut self) -> (r: Result<u32, HQMDecodeError>)
        requires
            old(self).wf(),
        ensures
            final(self).wf(),
            final(self).stream() == old(self).stream(),
            ({
                let s = old(self).stream();
                let c = old(self).cursor() + pad_len(old(self).cursor() as nat);
                if c + 32 <= s.len() {
                    &&& r is Ok
                    &&& r->Ok_0 as nat == bits_to_nat(s.subrange(c, c + 32))
                    &&& final(self).cursor() == c + 32
                } else {
                    &&& r == Err::<u32, HQMDecodeError>(HQMDecodeError::PastEnd)
                    &&& final(self).cursor() == c
                }
            }),
    {
        self.align();
        self.read_bits(32)
    }

    /// Reads `b` bits and sign-extends from bit `b - 1`.
    pub fn read_bits_signed(&mut self, b: u8) -> (r: Result<i32, HQMDecodeError>)
        requires
            old(self).wf(),
            1 <= b <= 31,
        ensures
            final(self).wf(),
            final(self).stream() == old(self).stream(),
            old(self).cursor() + b <= old(self).stream().len() ==> {
                &&& r is Ok
                &&& r->Ok_0 == sign_extend(
                    bits_to_nat(
                        old(self).stream().subrange(
                            old(self).cursor(),
                            old(self).cursor() + b as int,
                        ),
                    ),
                    b as nat,
                )
                &&& final(self).cursor() == old(self).cursor() + b
            },
            old(self).cursor() + b > old(self).stream().len() ==> r == Err::<
                i32,
                HQMDecodeError,
            >(HQMDecodeError::PastEnd) && *final(self) == *old(self),
    {
        let ghost c = self.cursor();
        let a = match self.read_bits(b) {
            Ok(a) => a,
            Err(e) => {
                return Err(e);
            },
        };
        proof {
            lemma_bits_to_nat_bound(old(self).stream().subrange(c, c + b as int));
        }
        let threshold = pow2_u32((b - 1) as u32);
        if a >= threshold {
            let field = pow2_u32(b as u32);
            proof {
                lemma_pow2_unfold(b as nat);
                lemma2_to64();
                if (b as nat) < 31 {
                    lemma_pow2_strictly_increases((b - 1) as nat, 30);
                }
            }
            Ok((a as i64 - field as i64) as i32)
        } else {
            proof {
                lemma2_to64();
                if (b as nat) < 31 {
                    lemma_pow2_strictly_increases((b - 1) as nat, 30);
                }
            }
            Ok(a as i32)
        }
    }

    /// Reads a position: two header bits select a signed delta of 3, 6 or 12
    /// bits added to `old_value`, or an absolute value in `b` bits.  A delta
    /// without a previous value, or one whose sum leaves the `b`-bit field,
    /// is an error; every error leaves the reader where it was.
    pub fn read_pos(&mut self, b: u8, old_value: Option<u32>) -> (r: Result<u32, HQMDecodeError>)
        requires
            old(self).wf(),
            1 <= b <= 32,
        ensures
            final(self).wf(),
            final(self).stream() == old(self).stream(),
            r is Err ==> final(self).cursor() == old(self).cursor(),
            ({
                let s = old(self).stream();
                let c = old(self).cursor();
                if c + 2 > s.len() {
                    r == Err::<u32, HQMDecodeError>(HQMDecodeError::PastEnd)
                } else {
                    let t = bits_to_nat(s.subrange(c, c + 2));
                    if t == 3 {
                        if c + 2 + b <= s.len() {
                            &&& r is Ok
                            &&& r->Ok_0 as nat == bits_to_nat(s.subrange(c + 2, c + 2 + b as int))
                            &&& final(self).cursor() == c + 2 + b
                        } else {
                            r == Err::<u32, HQMDecodeError>(HQMDecodeError::PastEnd)
                        }
                    } else {
                        let w = pos_delta_width(t);
                        if c + 2 + w > s.len() {
                            r == Err::<u32, HQMDecodeError>(HQMDecodeError::PastEnd)
                        } else if old_value is None {
                            r == Err::<u32, HQMDecodeError>(HQMDecodeError::MissingReference)
                        } else {
                            let d = sign_extend(bits_to_nat(s.subrange(c + 2, c + 2 + w as int)), w);
                            let sum = old_value->0 + d;
                            if 0 <= sum < pow2(b as nat) {
                                &&& r is Ok
                                &&& r->Ok_0 == sum
                                &&& final(self).cursor() == c + 2 + w
                            } else {
                                r == Err::<u32, HQMDecodeError>(HQMDecodeError::OutOfRange)
                            }
                        }
                    }
                }
            }),
    {
        broadcast use lemma_stream_bits_len;

        let save_pos = self.pos;
        let save_bit_pos = self.bit_pos;
        let pos_type = match self.read_bits(2) {
            Ok(v) => v,
            Err(e) => {
                return Err(e);
            },
        };
        proof {
            lemma_bits_to_nat_bound(
                old(self).stream().subrange(old(self).cursor(), old(self).cursor() + 2),
            );
            lemma2_to64();
        }
        if pos_type == 3 {
            match self.read_bits(b) {
                Ok(v) => Ok(v),
                Err(e) => {
                    self.pos = save_pos;
                    self.bit_pos = save_bit_pos;
                    Err(e)
                },
            }
        } else {
            let w: u8 = if pos_type == 0 {
                3
            } else if pos_type == 1 {
                6
            } else {
                12
            };
            match self.read_bits_signed(w) {
                Ok(d) => {
                    match old_value {
                        Some(o) => {
                            let sum: i64 = o as i64 + d as i64;
                            let field: u64 = if b == 32 {
                                0x1_0000_0000u64
                            } else {
                                pow2_u32(b as u32) as u64
                            };
                            proof {
                                lemma2_to64();
                            }
                            if 0 <= sum && (sum as u64) < field {
                                Ok(sum as u32)
                            } else {
                                self.pos = save_pos;
                                self.bit_pos = save_bit_pos;
                                Err(HQMDecodeError::OutOfRange)
                            }
                        },
                        None => {
                            self.pos = save_pos;
                            self.bit_pos = save_bit_pos;
                            Err(HQMDecodeError::MissingReference)
                        },
                    }
                },
                Err(e) => {
                    self.pos = save_pos;
                    self.bit_pos = save_bit_pos;
                    Err(e)
                },
            }
        }
    }
}

/// The value of a `w`-bit field read as two's complement.
pub open spec fn sign_extend(a: nat, w: nat) -> int
    recommends
        1 <= w,
{
    if a >= pow2((w - 1) as nat) {
        a - pow2(w)
    } else {
        a as int
    }
}

/// The delta width that a position header selects: `00` is 3 bits, `01` is
/// 6 bits, `10` is 12 bits.
pub open spec fn pos_delta_width(t: nat) -> nat {
    if t == 0 {
        3
    } else if t == 1 {
        6
    } else {
        12
    }
}

/// The `w`-bit two's-complement code of a small signed delta.
pub open spec fn delta_code(d: int, w: nat) -> nat
    recommends
        -pow2((w - 1) as nat) <= d < pow2((w - 1) as nat),
{
    if d >= 0 {
        d as nat
    } else {
        (d + pow2(w)) as nat
    }
}

/// Round trip of the unaligned bit field: reading `n` bits where
/// `write_bits` put them returns the written value, whatever the stream
/// holds before or after them.
pub proof fn lemma_write_read_bits(prefix: Seq<bool>, suffix: Seq<bool>, v: u32, n: nat)
    requires
        n <= 32,
        (v as nat) < pow2(n),
    ensures
        bits_to_nat(
            (prefix + bits_of(v as nat, n) + suffix).subrange(
                prefix.len() as int,
                prefix.len() + n as int,
            ),
        ) == v,
{
    broadcast use lemma_bits_of_len;

    assert((prefix + bits_of(v as nat, n) + suffix).subrange(
        prefix.len() as int,
        prefix.len() + n as int,
    ) =~= bits_of(v as nat, n));
    lemma_bits_round_trip(v, n);
}

/// Round trip of the delta-coded position: sign extension inverts the delta
/// code, so a position written as a delta against `old_value` reads back as
/// itself.
pub proof fn lemma_pos_delta_round_trip(old_value: u32, v: u32, w: nat)
    requires
        w == 3 || w == 6 || w == 12,
        -pow2((w - 1) as nat) <= v - old_value < pow2((w - 1) as nat),
    ensures
        old_value + sign_extend(bits_to_nat(bits_of(delta_code(v as int - old_value, w), w)), w)
            == v,
{
    let d = v as int - old_value as int;
    let e = delta_code(d, w);
    lemma_pow2_unfold(w);
    lemma_pow2_pos((w - 1) as nat);
    assert(e < pow2(w));
    lemma_bits_to_nat_of_bits_of(e, w);
    lemma_small_mod(e, pow2(w));
}

} // verus!
