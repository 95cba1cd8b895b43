//! Bit-level channel over an in-memory byte buffer.
//!
//! Bytes are produced and consumed most-significant-bit first. A single
//! pending byte (the "rack") assembles outgoing bits or holds the byte
//! currently being consumed; the "mask" marks the current bit position.

use vstd::prelude::*;

verus! {

use vstd::arithmetic::power2::pow2;
use vstd::arithmetic::power2::lemma_pow2_adds;
use vstd::arithmetic::power2::lemma_pow2_strictly_increases;
use vstd::arithmetic::power2::lemma2_to64;
use vstd::arithmetic::div_mod::lemma_mod_breakdown;
use vstd::bits::lemma_u32_shl_is_mul;

/// Bit `i` of byte `b`, counting from the most-significant bit (`i` in 0..8).
pub open spec fn byte_bit(b: u8, i: u8) -> bool {
    (b >> ((7 - i) as u8)) & 1 == 1
}

/// The bits of a byte sequence, most-significant bit first within each byte.
pub open spec fn stream(bytes: Seq<u8>) -> Seq<bool> {
    Seq::new((8 * bytes.len()) as nat, |i: int| byte_bit(bytes[i / 8], (i % 8) as u8))
}

/// The low `w` bits of `v` as a bit sequence, most-significant bit first.
pub open spec fn code_bits(v: u32, w: int) -> Seq<bool> {
    Seq::new(w as nat, |i: int| (v >> ((w - 1 - i) as u32)) & 1 == 1)
}

/// The unsigned value of a bit sequence read most-significant bit first.
pub open spec fn val_of_bits(s: Seq<bool>) -> nat
    decreases s.len(),
{
    if s.len() == 0 {
        0
    } else {
        2 * val_of_bits(s.drop_last()) + (if s.last() { 1nat } else { 0nat })
    }
}

/// A bit sequence extended with zero bits up to the next byte boundary.
pub open spec fn zero_pad(s: Seq<bool>) -> Seq<bool> {
    s + Seq::new((((8 - s.len() % 8) % 8) as nat), |i: int| false)
}

/// Position of the single set bit of a one-bit mask, counted from the
/// most-significant bit; 8 for anything that is not such a mask.
pub open spec fn mask_index(m: u8) -> u8 {
    if m == 0x80 {
        0
    } else if m == 0x40 {
        1
    } else if m == 0x20 {
        2
    } else if m == 0x10 {
        3
    } else if m == 0x08 {
        4
    } else if m == 0x04 {
        5
    } else if m == 0x02 {
        6
    } else if m == 0x01 {
        7
    } else {
        8
    }
}

/// Error raised by the bit channel: the byte source ran out while more
/// bits were expected. Distinct from any fault of an underlying device,
/// which an in-memory channel cannot have.
#[derive(Clone, Copy, Debug, PartialEq, Eq, Structural)]
pub enum CodecError {
    Exhausted,
}

/// A byte-buffered bit-level reader/writer.
pub struct BitFile {
    bytes: Vec<u8>,
    pos: usize,
    rack: u8,
    mask: u8,
}

impl BitFile {
    /// Well-formed as a writer: the mask is a single-bit mask and the
    /// bits of the rack at and below the mask position are still clear.
    pub closed spec fn wf_writer(self) -> bool {
        &&& mask_index(self.mask) < 8
        &&& self.rack & (0xffu8 >> mask_index(self.mask)) == 0
    }

    /// The complete bytes written so far (pending rack bits excluded).
    pub closed spec fn out_bytes(self) -> Seq<u8> {
        self.bytes@
    }

    /// Every bit written so far: the completed bytes, then the pending
    /// bits of the rack.
    pub closed spec fn out_bits(self) -> Seq<bool> {
        Seq::new(
            (8 * self.bytes@.len() + mask_index(self.mask)) as nat,
            |i: int|
                if i < 8 * self.bytes@.len() {
                    stream(self.bytes@)[i]
                } else {
                    byte_bit(self.rack, (i - 8 * self.bytes@.len()) as u8)
                },
        )
    }

    /// Well-formed as a reader: the mask is a single-bit mask and, while a
    /// byte is partially consumed, the rack holds the byte it came from.
    pub closed spec fn wf_reader(self) -> bool {
        &&& mask_index(self.mask) < 8
        &&& self.pos <= self.bytes@.len()
        &&& self.mask != 0x80 ==> self.pos >= 1 && self.rack == self.bytes@[self.pos - 1]
    }

    /// The byte source a reader was opened over.
    pub closed spec fn in_bytes(self) -> Seq<u8> {
        self.bytes@
    }

    /// How many bits have been consumed from the source.
    pub closed spec fn in_cursor(self) -> int {
        if self.mask == 0x80 {
            8 * self.pos
        } else {
            8 * (self.pos - 1) + mask_index(self.mask)
        }
    }

    /// Fresh writer over an empty buffer.
    pub fn create() -> (w: BitFile)
        ensures
            w.wf_writer(),
            w.out_bits() == Seq::<bool>::empty(),
            w.out_bytes() == Seq::<u8>::empty(),
    {
        let w = BitFile { bytes: Vec::new(), pos: 0, rack: 0, mask: 0x80 };
        proof {
            assert(0u8 & (0xffu8 >> 0u8) == 0) by (bit_vector);
            assert(w.out_bits() =~= Seq::<bool>::empty());
            assert(w.out_bytes() =~= Seq::<u8>::empty());
        }
        w
    }

    /// Fresh reader over the given bytes.
    pub fn open(bytes: Vec<u8>) -> (r: BitFile)
        ensures
            r.wf_reader(),
            r.in_bytes() == bytes@,
            r.in_cursor() == 0,
    {
        BitFile { bytes, pos: 0, rack: 0, mask: 0x80 }
    }

    /// Consume the writer, yielding the completed bytes.
    pub fn into_bytes(self) -> (r: Vec<u8>)
        ensures
            r@ == self.out_bytes(),
    {
        self.bytes
    }

    /// Append one bit: set if `bit` is nonzero, clear otherwise. When the
    /// rack fills, its byte moves to the output buffer.
    pub fn output_bit(&mut self, bit: u8)
        requires
            old(self).wf_writer(),
        ensures
            final(self).wf_writer(),
            final(self).out_bits() == old(self).out_bits().push(bit != 0),
            final(self).out_bytes() == if old(self).out_bits().len() % 8 == 7 {
                old(self).out_bytes().push((final(self).out_bytes())[old(self).out_bytes().len() as int])
            } else {
                old(self).out_bytes()
            },
    {
        let ghost k = mask_index(old(self).mask);
        let ghost r0 = self.rack;
        let ghost m0 = self.mask;
        let ghost len0 = self.bytes@.len() as int;
        proof {
            lemma_mul8_mod(len0, k as int);
        }
        if bit != 0 {
            self.rack = self.rack | self.mask;
        }
        proof {
            lemma_rack_step(r0, m0);
            assert forall|j: u8| j < 8 && j != k implies byte_bit(self.rack, j) == byte_bit(
                r0,
                j,
            ) by {
                lemma_or_keeps_other_bits(r0, m0, j);
            }
        }
        let ghost r1 = self.rack;
        self.mask = self.mask >> 1;
        if self.mask == 0 {
            self.bytes.push(self.rack);
            self.rack = 0;
            self.mask = 0x80;
            proof {
                assert(0u8 & (0xffu8 >> 0u8) == 0) by (bit_vector);
                assert(k == 7);
                assert forall|i: int| 0 <= i < 8 * len0 + 8 implies #[trigger] self.out_bits()[i]
                    == old(self).out_bits().push(bit != 0)[i] by {
                    if i < 8 * len0 {
                        lemma_div8_range(i, len0);
                        lemma_mul8_mod(i / 8, i % 8);
                    } else {
                        lemma_div8_exact(i, len0);
                    }
                }
                assert(self.out_bits() =~= old(self).out_bits().push(bit != 0));
            }
        } else {
            proof {
                assert forall|i: int| 0 <= i < 8 * len0 + k + 1 implies #[trigger] self.out_bits()[i]
                    == old(self).out_bits().push(bit != 0)[i] by {}
                assert(self.out_bits() =~= old(self).out_bits().push(bit != 0));
            }
        }
    }

    /// Append the low `count` bits of `code`, most-significant bit first.
    pub fn output_bits(&mut self, code: u32, count: usize)
        requires
            old(self).wf_writer(),
            1 <= count <= 32,
        ensures
            final(self).wf_writer(),
            final(self).out_bits() == old(self).out_bits() + code_bits(code, count as int),
    {
        let mut i: usize = 0;
        while i < count
            invariant
                self.wf_writer(),
                i <= count,
                count <= 32,
                self.out_bits() == old(self).out_bits() + code_bits(code, count as int).take(
                    i as int,
                ),
            decreases count - i,
        {
            let sh: u32 = (count - 1 - i) as u32;
            let b: u32 = (code >> sh) & 1;
            proof {
                assert((code >> sh) & 1 == 0 || (code >> sh) & 1 == 1) by (bit_vector);
            }
            self.output_bit(b as u8);
            proof {
                assert(code_bits(code, count as int).take(i + 1) =~= code_bits(
                    code,
                    count as int,
                ).take(i as int).push(code_bits(code, count as int)[i as int]));
                assert(self.out_bits() =~= old(self).out_bits() + code_bits(
                    code,
                    count as int,
                ).take(i + 1));
            }
            i = i + 1;
        }
        proof {
            assert(code_bits(code, count as int).take(count as int) =~= code_bits(
                code,
                count as int,
            ));
        }
    }

    /// Flush any pending bits: the partial byte, zero-padded in its unused
    /// low positions, moves to the output buffer. A no-op when no bits are
    /// pending.
    pub fn flush_bits(&mut self)
        requires
            old(self).wf_writer(),
        ensures
            final(self).wf_writer(),
            stream(final(self).out_bytes()) == zero_pad(old(self).out_bits()),
            final(self).out_bits() == stream(final(self).out_bytes()),
            old(self).out_bits().len() % 8 == 0 ==> *final(self) == *old(self),
    {
        let ghost k = mask_index(old(self).mask);
        let ghost len0 = self.bytes@.len() as int;
        proof {
            lemma_mul8_mod(len0, k as int);
        }
        if self.mask != 0x80 {
            self.bytes.push(self.rack);
            let ghost r0 = self.rack;
            self.rack = 0;
            self.mask = 0x80;
            proof {
                assert(0u8 & (0xffu8 >> 0u8) == 0) by (bit_vector);
                lemma_mul8_mod(len0 + 1, 0);
                assert forall|i: int| 0 <= i < 8 * (len0 + 1) implies #[trigger] stream(
                    self.bytes@,
                )[i] == zero_pad(old(self).out_bits())[i] by {
                    if i < 8 * len0 {
                        lemma_div8_range(i, len0);
                        lemma_mul8_mod(i / 8, i % 8);
                    } else {
                        lemma_div8_exact(i, len0);
                        if i - 8 * len0 >= k {
                            lemma_high_bits_clear(r0, k, (i - 8 * len0) as u8);
                        }
                    }
                }
                assert(stream(self.bytes@) =~= zero_pad(old(self).out_bits()));
                assert(self.out_bits() =~= stream(self.bytes@));
            }
        } else {
            proof {
                assert(k == 0);
                assert(zero_pad(old(self).out_bits()) =~= old(self).out_bits());
                assert(self.out_bits() =~= stream(self.bytes@));
            }
        }
    }

    /// Append one whole byte. Only available while the stream is
    /// byte-aligned (no pending bits).
    pub fn write_byte(&mut self, b: u8)
        requires
            old(self).wf_writer(),
            old(self).out_bits().len() % 8 == 0,
        ensures
            final(self).wf_writer(),
            final(self).out_bytes() == old(self).out_bytes().push(b),
            final(self).out_bits() == old(self).out_bits() + stream(seq![b]),
            final(self).out_bits().len() % 8 == 0,
    {
        let ghost k = mask_index(old(self).mask);
        let ghost len0 = self.bytes@.len() as int;
        proof {
            lemma_mul8_mod(len0, k as int);
            assert(k == 0);
        }
        self.bytes.push(b);
        proof {
            lemma_mul8_mod(len0 + 1, 0);
            assert forall|i: int| 0 <= i < 8 * (len0 + 1) implies #[trigger] self.out_bits()[i]
                == (old(self).out_bits() + stream(seq![b]))[i] by {
                if i < 8 * len0 {
                    lemma_div8_range(i, len0);
                    lemma_mul8_mod(i / 8, i % 8);
                } else {
                    lemma_div8_exact(i, len0);
                }
            }
            assert(self.out_bits() =~= old(self).out_bits() + stream(seq![b]));
        }
    }
}

impl BitFile {
    /// Whether any bits are left to read.
    pub fn has_more(&self) -> (r: bool)
        requires
            self.wf_reader(),
        ensures
            r == (self.in_cursor() < 8 * self.in_bytes().len()),
    {
        proof {
            if self.mask != 0x80 {
                lemma_mul8_mod((self.pos - 1) as int, mask_index(self.mask) as int);
            }
        }
        self.pos < self.bytes.len() || self.mask != 0x80
    }

    /// Consume one bit; `Ok(1)` for a set bit, `Ok(0)` for a clear one.
    /// Reading past the end of the source reports exhaustion.
    pub fn input_bit(&mut self) -> (r: Result<u8, CodecError>)
        requires
            old(self).wf_reader(),
        ensures
            final(self).wf_reader(),
            final(self).in_bytes() == old(self).in_bytes(),
            old(self).in_cursor() < 8 * old(self).in_bytes().len() ==> r == Ok::<u8, CodecError>(
                if stream(old(self).in_bytes())[old(self).in_cursor()] {
                    1u8
                } else {
                    0u8
                },
            ) && final(self).in_cursor() == old(self).in_cursor() + 1,
            old(self).in_cursor() >= 8 * old(self).in_bytes().len() ==> r == Err::<
                u8,
                CodecError,
            >(CodecError::Exhausted) && *final(self) == *old(self),
    {
        let ghost n = old(self).in_cursor();
        if self.mask == 0x80 {
            if self.pos == self.bytes.len() {
                return Err(CodecError::Exhausted);
            }
            self.rack = self.bytes[self.pos];
            self.pos = self.pos + 1;
        }
        let ghost k = mask_index(self.mask);
        proof {
            lemma_mul8_mod((self.pos - 1) as int, k as int);
            assert(n == 8 * (self.pos - 1) + k);
            assert(stream(self.in_bytes())[n] == byte_bit(self.rack, k));
            lemma_mask_reads_bit(self.rack, self.mask);
        }
        let value = self.rack & self.mask;
        proof {
            lemma_rack_shift(self.mask);
        }
        self.mask = self.mask >> 1;
        if self.mask == 0 {
            self.mask = 0x80;
        }
        if value != 0 {
            Ok(1)
        } else {
            Ok(0)
        }
    }

    /// Consume `bit_count` bits, assembling them into an unsigned value
    /// most-significant bit first. Running out of source bits midway
    /// reports exhaustion with the source fully consumed.
    pub fn input_bits(&mut self, bit_count: u8) -> (r: Result<u32, CodecError>)
        requires
            old(self).wf_reader(),
            1 <= bit_count <= 32,
        ensures
            final(self).wf_reader(),
            final(self).in_bytes() == old(self).in_bytes(),
            old(self).in_cursor() + bit_count <= 8 * old(self).in_bytes().len() ==> {
                &&& r is Ok
                &&& r->Ok_0 as nat == val_of_bits(
                    stream(old(self).in_bytes()).subrange(
                        old(self).in_cursor(),
                        old(self).in_cursor() + bit_count,
                    ),
                )
                &&& final(self).in_cursor() == old(self).in_cursor() + bit_count
            },
            old(self).in_cursor() + bit_count > 8 * old(self).in_bytes().len() ==> r == Err::<
                u32,
                CodecError,
            >(CodecError::Exhausted) && final(self).in_cursor() == 8 * old(
                self,
            ).in_bytes().len(),
    {
        let ghost n0 = old(self).in_cursor();
        let ghost s = stream(old(self).in_bytes());
        let mut return_value: u32 = 0;
        let mut i: u8 = 0;
        proof {
            lemma_cursor_in_range(*self);
            assert(s.subrange(n0, n0) =~= Seq::<bool>::empty());
            assert(val_of_bits(Seq::<bool>::empty()) == 0);
            assert(0nat * pow2((bit_count - 0) as nat) == 0) by (nonlinear_arith);
        }
        while i < bit_count
            invariant
                self.wf_reader(),
                self.in_bytes() == old(self).in_bytes(),
                s == stream(old(self).in_bytes()),
                n0 == old(self).in_cursor(),
                0 <= n0,
                1 <= bit_count <= 32,
                i <= bit_count,
                self.in_cursor() == n0 + i,
                n0 + i <= 8 * self.in_bytes().len(),
                return_value as nat == val_of_bits(s.subrange(n0, n0 + i)) * pow2(
                    (bit_count - i) as nat,
                ),
            decreases bit_count - i,
        {
            let ghost v = val_of_bits(s.subrange(n0, n0 + i));
            proof {
                lemma_cursor_in_range(*self);
            }
            let b = match self.input_bit() {
                Ok(b) => b,
                Err(e) => {
                    return Err(e);
                },
            };
            proof {
                assert(s.subrange(n0, n0 + i + 1).drop_last() =~= s.subrange(n0, n0 + i));
                lemma_val_of_bits_bound(s.subrange(n0, n0 + i));
                lemma_pow2_adds(1, (bit_count - i - 1) as nat);
                lemma_pow2_adds(i as nat, (bit_count - i) as nat);
                lemma2_to64();
            }
            let ghost p1 = pow2((bit_count - i - 1) as nat);
            let ghost bv: nat = if b == 1 { 1nat } else { 0nat };
            proof {
                assert((2 * v + bv) * p1 == v * (2 * p1) + bv * p1) by (nonlinear_arith);
                assert(v * (2 * p1) <= (pow2(i as nat) - 1) * (2 * p1)) by (nonlinear_arith)
                    requires
                        v < pow2(i as nat),
                        p1 > 0,
                ;
                assert(pow2(i as nat) * (2 * p1) == pow2(bit_count as nat));
                assert((pow2(i as nat) - 1) * (2 * p1) == pow2(bit_count as nat) - 2 * p1)
                    by (nonlinear_arith)
                    requires
                        pow2(i as nat) * (2 * p1) == pow2(bit_count as nat),
                ;
                lemma_pow2_le32(bit_count as nat);
            }
            if b == 1 {
                let sh: u32 = (bit_count - 1 - i) as u32;
                proof {
                    lemma_u32_shl_is_mul(1u32, sh);
                }
                return_value = return_value + (1u32 << sh);
            }
            i = i + 1;
        }
        proof {
            lemma2_to64();
            assert(i == bit_count);
            assert(pow2(0) == 1);
            assert(return_value as nat == val_of_bits(s.subrange(n0, n0 + bit_count)) * pow2(0));
            assert(return_value as nat == val_of_bits(s.subrange(n0, n0 + bit_count)));
        }
        Ok(return_value)
    }

    /// Consume one whole byte. Only available while the cursor is
    /// byte-aligned.
    pub fn read_byte(&mut self) -> (r: Result<u8, CodecError>)
        requires
            old(self).wf_reader(),
            old(self).in_cursor() % 8 == 0,
        ensures
            final(self).wf_reader(),
            final(self).in_bytes() == old(self).in_bytes(),
            final(self).in_cursor() % 8 == 0,
            old(self).in_cursor() < 8 * old(self).in_bytes().len() ==> r == Ok::<u8, CodecError>(
                old(self).in_bytes()[old(self).in_cursor() / 8],
            ) && final(self).in_cursor() == old(self).in_cursor() + 8,
            old(self).in_cursor() >= 8 * old(self).in_bytes().len() ==> r == Err::<
                u8,
                CodecError,
            >(CodecError::Exhausted) && *final(self) == *old(self),
    {
        proof {
            if self.mask != 0x80 {
                lemma_mul8_mod((self.pos - 1) as int, mask_index(self.mask) as int);
            }
            lemma_mul8_mod(self.pos as int, 0);
        }
        if self.pos == self.bytes.len() {
            return Err(CodecError::Exhausted);
        }
        let b = self.bytes[self.pos];
        self.pos = self.pos + 1;
        proof {
            lemma_mul8_mod(self.pos as int, 0);
        }
        Ok(b)
    }
}

/// A byte-aligned writer's bit stream is exactly its completed bytes.
pub proof fn lemma_writer_aligned(f: BitFile)
    requires
        f.wf_writer(),
        f.out_bits().len() % 8 == 0,
    ensures
        f.out_bits() == stream(f.out_bytes()),
{
    lemma_mul8_mod(f.bytes@.len() as int, mask_index(f.mask) as int);
    assert(f.out_bits() =~= stream(f.out_bytes()));
}

/// The cursor of a well-formed reader never passes the end of the source.
pub proof fn lemma_cursor_in_range(f: BitFile)
    requires
        f.wf_reader(),
    ensures
        0 <= f.in_cursor() <= 8 * f.in_bytes().len(),
{
}

/// pow2 of at most 32 fits in 33 bits.
proof fn lemma_pow2_le32(e: nat)
    requires
        e <= 32,
    ensures
        pow2(e) <= 0x1_0000_0000,
{
    lemma2_to64();
    if e < 32 {
        lemma_pow2_strictly_increases(e, 32);
    }
}

/// Write the `bits`-wide binary rendering of `code` as ASCII digits.
pub fn file_print_binary(out: &mut Vec<u8>, code: u32, bits: usize)
    requires
        1 <= bits <= 32,
    ensures
        final(out)@ == old(out)@ + Seq::new(
            bits as nat,
            |i: int| if code_bits(code, bits as int)[i] { 49u8 } else { 48u8 },
        ),
{
    let ghost digits = Seq::new(
        bits as nat,
        |i: int| if code_bits(code, bits as int)[i] { 49u8 } else { 48u8 },
    );
    let mut i: usize = 0;
    while i < bits
        invariant
            i <= bits,
            1 <= bits <= 32,
            digits == Seq::new(
                bits as nat,
                |j: int| if code_bits(code, bits as int)[j] { 49u8 } else { 48u8 },
            ),
            out@ == old(out)@ + digits.take(i as int),
        decreases bits - i,
    {
        let sh: u32 = (bits - 1 - i) as u32;
        let b: u32 = (code >> sh) & 1;
        proof {
            assert((code >> sh) & 1 == 0 || (code >> sh) & 1 == 1) by (bit_vector);
        }
        if b != 0 {
            out.push(49u8);
        } else {
            out.push(48u8);
        }
        proof {
            assert(out@ =~= old(out)@ + digits.take(i + 1));
        }
        i = i + 1;
    }
    proof {
        assert(digits.take(bits as int) =~= digits);
    }
}

/// Every width in a sequence of (value, width) pairs lies in 1..=32.
pub open spec fn width_ok(pairs: Seq<(u32, u32)>) -> bool {
    forall|i: int| 0 <= i < pairs.len() ==> 1 <= (#[trigger] pairs[i]).1 <= 32
}

/// The bit stream produced by writing each (value, width) pair in order.
pub open spec fn packed_bits(pairs: Seq<(u32, u32)>) -> Seq<bool>
    decreases pairs.len(),
{
    if pairs.len() == 0 {
        Seq::empty()
    } else {
        packed_bits(pairs.drop_last()) + code_bits(pairs.last().0, pairs.last().1 as int)
    }
}

/// Where the bits of the i-th pair begin: the sum of the earlier widths.
pub open spec fn packed_offset(pairs: Seq<(u32, u32)>, i: int) -> int
    decreases i,
{
    if i <= 0 {
        0
    } else {
        packed_offset(pairs, i - 1) + pairs[i - 1].1
    }
}

proof fn lemma_packed_offset_drop_last(pairs: Seq<(u32, u32)>, i: int)
    requires
        pairs.len() >= 1,
        0 <= i <= pairs.len() - 1,
    ensures
        packed_offset(pairs.drop_last(), i) == packed_offset(pairs, i),
    decreases i,
{
    if i > 0 {
        lemma_packed_offset_drop_last(pairs, i - 1);
    }
}

/// The packed stream is exactly as long as the sum of the widths.
pub proof fn lemma_packed_len(pairs: Seq<(u32, u32)>)
    ensures
        packed_bits(pairs).len() == packed_offset(pairs, pairs.len() as int),
    decreases pairs.len(),
{
    if pairs.len() > 0 {
        lemma_packed_len(pairs.drop_last());
        lemma_packed_offset_drop_last(pairs, pairs.len() - 1);
    }
}

/// Bit-channel round trip: after writing any sequence of (value, width)
/// pairs with widths in 1..=32, reading the i-th width back at the i-th
/// offset — from the packed stream followed by anything, such as flush
/// padding — yields the i-th value reduced modulo 2^width.
pub proof fn lemma_bit_round_trip(pairs: Seq<(u32, u32)>, rest: Seq<bool>, i: int)
    requires
        width_ok(pairs),
        0 <= i < pairs.len(),
    ensures
        ({
            let s = packed_bits(pairs) + rest;
            let off = packed_offset(pairs, i);
            val_of_bits(s.subrange(off, off + pairs[i].1)) == pairs[i].0 as nat % pow2(
                pairs[i].1 as nat,
            )
        }),
    decreases pairs.len(),
{
    let s = packed_bits(pairs) + rest;
    let off = packed_offset(pairs, i);
    lemma_packed_len(pairs.drop_last());
    lemma_packed_offset_drop_last(pairs, i);
    if i == pairs.len() - 1 {
        lemma_packed_offset_drop_last(pairs, pairs.len() - 1);
        assert(s.subrange(off, off + pairs[i].1) =~= code_bits(
            pairs[i].0,
            pairs[i].1 as int,
        ));
        lemma_val_of_code_bits(pairs[i].0, pairs[i].1 as int);
    } else {
        let rest2 = code_bits(pairs.last().0, pairs.last().1 as int) + rest;
        assert(packed_bits(pairs.drop_last()) + rest2 =~= s);
        lemma_bit_round_trip(pairs.drop_last(), rest2, i);
        assert(pairs.drop_last()[i] == pairs[i]);
    }
}

/// The value assembled from the bits of `v` written `w` wide is `v`
/// reduced modulo 2^w.
pub proof fn lemma_val_of_code_bits(v: u32, w: int)
    requires
        0 <= w <= 32,
    ensures
        val_of_bits(code_bits(v, w)) == v as nat % pow2(w as nat),
    decreases w,
{
    if w == 0 {
        assert(code_bits(v, 0) =~= Seq::<bool>::empty());
        lemma2_to64();
        assert(v as nat % 1 == 0) by (nonlinear_arith);
    } else {
        let tail = code_bits(v >> 1u32, w - 1);
        assert forall|i: int| 0 <= i < w - 1 implies code_bits(v, w).drop_last()[i] == tail[i] by {
            let sm1: u32 = (w - 1 - i - 1) as u32;
            assert(sm1 < 31 ==> ((v >> ((sm1 + 1) as u32)) & 1 == ((v >> 1u32) >> sm1) & 1))
                by (bit_vector);
        }
        assert(code_bits(v, w).drop_last() =~= tail);
        lemma_val_of_code_bits(v >> 1u32, w - 1);
        assert(v >> 0u32 == v) by (bit_vector);
        assert(v >> 1u32 == v / 2) by (bit_vector);
        assert((v & 1 == 1) == (v % 2 == 1)) by (bit_vector);
        assert(v % 2 == 0 || v % 2 == 1) by (nonlinear_arith);
        lemma_pow2_adds(1, (w - 1) as nat);
        lemma2_to64();
        lemma_mod_breakdown(v as int, 2, pow2((w - 1) as nat) as int);
    }
}

/// A bit sequence of length n has value below 2^n.
pub proof fn lemma_val_of_bits_bound(s: Seq<bool>)
    ensures
        val_of_bits(s) < pow2(s.len()),
    decreases s.len(),
{
    if s.len() == 0 {
        lemma2_to64();
    } else {
        lemma_val_of_bits_bound(s.drop_last());
        lemma_pow2_adds(1, (s.len() - 1) as nat);
        lemma2_to64();
    }
}

/// A set mask bit reads back as the bit at the mask position.
proof fn lemma_mask_reads_bit(r: u8, m: u8)
    by (bit_vector)
    requires
        mask_index(m) < 8,
    ensures
        (r & m != 0) == byte_bit(r, mask_index(m)),
{
}

/// Shifting a one-bit mask right moves its index down one place.
proof fn lemma_rack_shift(m: u8)
    by (bit_vector)
    requires
        mask_index(m) < 8,
    ensures
        m != 1 ==> mask_index(m >> 1) == mask_index(m) + 1,
        m == 1 ==> m >> 1 == 0,
        m == 1 <==> mask_index(m) == 7,
{
}

/// (8a + k) % 8 == k and (8a + k) / 8 == a for k in 0..8.
proof fn lemma_mul8_mod(a: int, k: int)
    by (nonlinear_arith)
    requires
        0 <= k < 8,
        0 <= a,
    ensures
        (8 * a + k) % 8 == k,
        (8 * a + k) / 8 == a,
{
}

/// An index below 8a selects a byte below a.
proof fn lemma_div8_range(i: int, a: int)
    by (nonlinear_arith)
    requires
        0 <= i < 8 * a,
    ensures
        0 <= i / 8 < a,
        0 <= i % 8 < 8,
        i == 8 * (i / 8) + i % 8,
{
}

/// An index in the last byte of 8(a+1) bits selects byte a.
proof fn lemma_div8_exact(i: int, a: int)
    by (nonlinear_arith)
    requires
        0 <= a,
        8 * a <= i < 8 * a + 8,
    ensures
        i / 8 == a,
        i % 8 == i - 8 * a,
{
}

/// Setting the mask bit of a clear-below rack: the bit at the mask
/// position reads as written, and the positions below stay clear.
proof fn lemma_rack_step(r: u8, m: u8)
    by (bit_vector)
    requires
        mask_index(m) < 8,
        r & (0xffu8 >> mask_index(m)) == 0,
    ensures
        byte_bit(r | m, mask_index(m)),
        !byte_bit(r, mask_index(m)),
        (r | m) & (0xffu8 >> ((mask_index(m) + 1) as u8)) == 0,
        r & (0xffu8 >> ((mask_index(m) + 1) as u8)) == 0,
        m != 1 ==> mask_index(m >> 1) == mask_index(m) + 1,
        m == 1 ==> m >> 1 == 0,
        m == 1 <==> mask_index(m) == 7,
{
}

/// Or-ing in a one-bit mask leaves every other bit unchanged.
proof fn lemma_or_keeps_other_bits(r: u8, m: u8, j: u8)
    by (bit_vector)
    requires
        mask_index(m) < 8,
    ensures
        j < 8 && j != mask_index(m) ==> byte_bit(r | m, j) == byte_bit(r, j),
{
}

/// A rack whose bits at and below position k are clear reads false there.
proof fn lemma_high_bits_clear(r: u8, k: u8, j: u8)
    by (bit_vector)
    requires
        k < 8,
        r & (0xffu8 >> k) == 0,
        k <= j < 8,
    ensures
        !byte_bit(r, j),
{
}

} // verus!
