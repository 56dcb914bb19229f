//! Packing bits most significant first into bytes.
use crate::bits::{
    bytes_bits, byte_bits, field_bits, lemma_append_field, lemma_bytes_bits_len, lemma_bytes_bits_push,
    lemma_last_byte, lemma_mask_field, lemma_take_byte, pad_to_byte, top_bits, clean,
};
use crate::huffman::{code_len, code_value, huffman_code, FLUSH_INDEX};
use vstd::prelude::*;

verus! {

/// The FLUSH marker's bits.
pub open spec fn flush_bits() -> Seq<bool> {
    field_bits(code_value(FLUSH_INDEX as int) as u32, code_len(FLUSH_INDEX as int))
}

proof fn lemma_pad_concat(a: Seq<bool>, b: Seq<bool>)
    requires
        a.len() % 8 == 0,
    ensures
        pad_to_byte(a + b) == a + pad_to_byte(b),
{
    assert((a + b).len() % 8 == b.len() % 8);
    assert(pad_to_byte(a + b) == a + pad_to_byte(b));
}

/// Packs bits most significant first into bytes, through a 32-bit staging word.
pub struct BitWriter {
    out: Vec<u8>,
    buffer: u32,
    bit_pos: u8,
}

impl BitWriter {
    /// The bytes emitted so far.
    pub closed spec fn emitted(&self) -> Seq<u8> {
        self.out@
    }

    /// The staging word.
    pub closed spec fn staging(&self) -> u32 {
        self.buffer
    }

    /// The bits written but not yet emitted.
    pub closed spec fn pending(&self) -> Seq<bool> {
        top_bits(self.buffer, self.bit_pos as nat)
    }

    /// Everything written so far, in order.
    pub open spec fn stream(&self) -> Seq<bool> {
        bytes_bits(self.emitted()) + self.pending()
    }

    /// At most 32 bits are pending and the staging word holds nothing below them.
    pub closed spec fn wf(&self) -> bool {
        self.bit_pos <= 32 && clean(self.buffer, self.bit_pos as nat)
    }

    /// The staging word (for debugging).
    pub fn get_buffer(&self) -> (r: u32)
        requires
            self.wf(),
        ensures
            r == self.staging(),
            top_bits(r, self.pending().len()) == self.pending(),
            clean(r, self.pending().len()),
    {
        self.buffer
    }

    /// The number of pending bits (for debugging).
    pub fn get_bit_pos(&self) -> (r: u8)
        requires
            self.wf(),
        ensures
            r == self.pending().len(),
    {
        self.bit_pos
    }

    /// A writer with nothing written.
    pub fn new() -> (r: BitWriter)
        ensures
            r.wf(),
            r.emitted() == Seq::<u8>::empty(),
            r.pending() == Seq::<bool>::empty(),
    {
        let r = BitWriter { out: Vec::new(), buffer: 0, bit_pos: 0 };
        assert(r.pending() == Seq::<bool>::empty());
        assert(0u32 & (0xffff_ffffu32 >> 0u32) == 0) by (bit_vector);
        r
    }

    /// The bytes emitted so far.
    pub fn output(&self) -> (r: &[u8])
        ensures
            r@ == self.emitted(),
    {
        self.out.as_slice()
    }

    /// Hands back the bytes emitted so far; pending bits are dropped.
    pub fn into_output(self) -> (r: Vec<u8>)
        ensures
            r@ == self.emitted(),
    {
        self.out
    }

    /// Emits whole bytes from the staging word while at least eight bits are pending.
    fn emit_whole_bytes(&mut self) -> (r: usize)
        requires
            old(self).wf(),
        ensures
            final(self).wf(),
            final(self).stream() == old(self).stream(),
            final(self).pending().len() == old(self).pending().len() % 8,
            r * 8 + final(self).pending().len() == old(self).pending().len(),
            final(self).emitted().len() == old(self).emitted().len() + r,
            final(self).emitted().take(old(self).emitted().len() as int) == old(self).emitted(),
    {
        let mut written: usize = 0;
        while self.bit_pos >= 8
            invariant
                self.wf(),
                self.stream() == old(self).stream(),
                written * 8 + self.bit_pos == old(self).bit_pos,
                self.emitted().len() == old(self).emitted().len() + written,
                self.emitted().take(old(self).emitted().len() as int) == old(self).emitted(),
            decreases self.bit_pos,
        {
            proof {
                lemma_take_byte(self.buffer, self.bit_pos as nat);
                lemma_bytes_bits_push(self.out@, (self.buffer >> 24u32) as u8);
            }
            let byte = (self.buffer >> 24u32) as u8;
            self.out.push(byte);
            self.buffer = (self.buffer & 0xff_ffff) << 8u32;
            self.bit_pos = self.bit_pos - 8;
            proof {
                assert(self.emitted().take(old(self).emitted().len() as int) == old(
                    self,
                ).emitted());
            }
            written = written + 1;
        }
        written
    }

    /// Writes the low `num_bits` bits of `bits`, most significant first. With `flush`, then
    /// emits every whole byte. Returns the number of bytes emitted.
    pub fn write(&mut self, bits: u32, num_bits: u8, flush: bool) -> (r: usize)
        requires
            old(self).wf(),
            1 <= num_bits <= 31,
            old(self).pending().len() + num_bits <= 32,
        ensures
            final(self).wf(),
            final(self).stream() == old(self).stream() + field_bits(bits, num_bits as nat),
            final(self).emitted().len() == old(self).emitted().len() + r,
            final(self).emitted().take(old(self).emitted().len() as int) == old(self).emitted(),
            flush ==> final(self).pending().len() == (old(self).pending().len() + num_bits) % 8,
            flush ==> r * 8 + final(self).pending().len() == old(self).pending().len() + num_bits,
            !flush ==> final(self).emitted() == old(self).emitted(),
    {
        proof {
            lemma_mask_field(bits, num_bits as nat);
            lemma_append_field(
                self.buffer,
                self.bit_pos as nat,
                bits & (((1u32 << (num_bits as u32)) - 1) as u32),
                num_bits as nat,
            );
        }
        assert(1u32 << (num_bits as u32) >= 1) by (bit_vector)
            requires
                1 <= num_bits <= 31,
        ;
        let masked = bits & ((1u32 << num_bits as u32) - 1);
        self.bit_pos = self.bit_pos + num_bits;
        self.buffer = self.buffer | (masked << (32 - self.bit_pos) as u32);
        assert(self.stream() == old(self).stream() + field_bits(bits, num_bits as nat));
        if flush {
            self.emit_whole_bytes()
        } else {
            assert(self.emitted().take(old(self).emitted().len() as int) == old(self).emitted());
            0
        }
    }

    /// Writes the code of pattern-length index `pattern_size`.
    pub fn write_huffman(&mut self, pattern_size: usize) -> (r: usize)
        requires
            old(self).wf(),
            pattern_size < 14,
            old(self).pending().len() + code_len(pattern_size as int) <= 32,
        ensures
            final(self).wf(),
            final(self).stream() == old(self).stream() + field_bits(
                code_value(pattern_size as int) as u32,
                code_len(pattern_size as int),
            ),
            final(self).emitted().len() == old(self).emitted().len() + r,
            final(self).emitted().take(old(self).emitted().len() as int) == old(self).emitted(),
            final(self).pending().len() == (old(self).pending().len() + code_len(
                pattern_size as int,
            )) % 8,
            r * 8 + final(self).pending().len() == old(self).pending().len() + code_len(
                pattern_size as int,
            ),
    {
        let (code, bits) = huffman_code(pattern_size as u8);
        self.write(code, bits, true)
    }

    /// Writes the FLUSH marker when `write_token` is set and bits are pending, then emits the
    /// pending bits padded with zeros to a whole byte. Returns the number of bytes emitted.
    pub fn flush(&mut self, write_token: bool) -> (r: usize)
        requires
            old(self).wf(),
            write_token ==> old(self).pending().len() + 9 <= 32,
        ensures
            final(self).wf(),
            final(self).pending() == Seq::<bool>::empty(),
            bytes_bits(final(self).emitted()) == pad_to_byte(
                old(self).stream() + if write_token && old(self).pending().len() > 0 {
                    flush_bits()
                } else {
                    Seq::<bool>::empty()
                },
            ),
            final(self).emitted().len() == old(self).emitted().len() + r,
            final(self).emitted().take(old(self).emitted().len() as int) == old(self).emitted(),
    {
        let ghost target = pad_to_byte(
            old(self).stream() + if write_token && old(self).pending().len() > 0 {
                flush_bits()
            } else {
                Seq::<bool>::empty()
            },
        );
        let mut bytes_written: usize = 0;
        if self.bit_pos > 0 && write_token {
            let (code, bits) = huffman_code(FLUSH_INDEX);
            bytes_written = self.write(code, bits, true);
        } else {
            assert(old(self).stream() + Seq::<bool>::empty() == old(self).stream());
        }
        proof {
            lemma_bytes_bits_len(self.out@);
            lemma_pad_concat(bytes_bits(self.out@), self.pending());
        }
        while self.bit_pos > 0
            invariant
                self.wf(),
                bytes_bits(self.emitted()) + pad_to_byte(self.pending()) == target,
                self.emitted().len() == old(self).emitted().len() + bytes_written,
                self.emitted().take(old(self).emitted().len() as int) == old(self).emitted(),
                bytes_written * 8 + self.bit_pos <= 40,
            decreases self.bit_pos,
        {
            proof {
                lemma_bytes_bits_push(self.out@, (self.buffer >> 24u32) as u8);
                if self.bit_pos >= 8 {
                    lemma_take_byte(self.buffer, self.bit_pos as nat);
                    let b = byte_bits((self.buffer >> 24u32) as u8);
                    let rest = top_bits(((self.buffer & 0xff_ffffu32) << 8u32) as u32, (self.bit_pos - 8) as nat);
                    lemma_pad_concat(b, rest);
                } else {
                    lemma_last_byte(self.buffer, self.bit_pos as nat);
                }
            }
            let buf = self.buffer;
            let byte = ((buf >> 24u32) & 0xff) as u8;
            assert(byte == (buf >> 24u32) as u8) by (bit_vector)
                requires
                    byte == ((buf >> 24u32) & 0xff) as u8,
            ;
            self.out.push(byte);
            self.buffer = (self.buffer & 0xff_ffff) << 8u32;
            self.bit_pos = if self.bit_pos >= 8 {
                self.bit_pos - 8
            } else {
                0
            };
            proof {
                assert(self.emitted().take(old(self).emitted().len() as int) == old(
                    self,
                ).emitted());
                if self.bit_pos == 0 {
                    assert(pad_to_byte(self.pending()) == Seq::<bool>::empty());
                    assert(0u32 & (0xffff_ffffu32 >> 0u32) == 0) by (bit_vector);
                }
            }
            bytes_written = bytes_written + 1;
        }
        self.buffer = 0;
        self.bit_pos = 0;
        assert(pad_to_byte(Seq::<bool>::empty()) == Seq::<bool>::empty());
        assert(self.pending() == Seq::<bool>::empty());
        assert(0u32 & (0xffff_ffffu32 >> 0u32) == 0) by (bit_vector);
        bytes_written
    }

    /// Flushes without a FLUSH marker and hands back every byte emitted.
    pub fn close(self) -> (r: Vec<u8>)
        requires
            self.wf(),
        ensures
            bytes_bits(r@) == pad_to_byte(self.stream()),
    {
        let mut w = self;
        w.flush(false);
        w.out
    }
}

} // verus!
