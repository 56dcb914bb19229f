//! Reading bits most significant first from bytes, with one checkpoint.
use crate::bits::{
    bits_value, byte_bits, bytes_bits, clean, field_bits, lemma_append_field,
    lemma_bytes_bits_concat, top_bits,
};
use crate::error::TampError;
use crate::huffman::{huffman_lookup, lookup_spec, pow2};
use vstd::prelude::*;

verus! {

/// How many bits the staging word holds after reading `k` bits when it held `n`: whole bytes
/// are pulled in only while fewer than `k` bits are there.
pub open spec fn after_read(n: int, k: int) -> nat {
    if n >= k {
        (n - k) as nat
    } else {
        ((n - k) % 8) as nat
    }
}

/// Decoding a length code from `bits`, after `t - 1` of them are taken: the first prefix, of
/// eight bits at most, whose value is a code.
pub open spec fn huffman_scan(bits: Seq<bool>, t: int) -> Result<(u8, int), TampError>
    decreases 9 - t,
{
    if t > 8 || t < 1 {
        Err(TampError::MalformedCode)
    } else if bits.len() < t {
        Err(TampError::UnexpectedEndOfStream)
    } else {
        match lookup_spec(bits_value(bits.take(t))) {
            Some(s) => Ok((s, t)),
            None => huffman_scan(bits, t + 1),
        }
    }
}

/// The length code at the front of `bits`, with the number of bits it takes.
pub open spec fn huffman_decode(bits: Seq<bool>) -> Result<(u8, int), TampError> {
    huffman_scan(bits, 1)
}

pub proof fn lemma_after_read_step(n: int, t: int)
    requires
        0 <= n,
        0 <= t,
    ensures
        after_read(after_read(n, t) as int, 1) == after_read(n, t + 1),
{
}

pub proof fn lemma_value_of_field(v: u32, k: nat)
    requires
        k <= 32,
        k < 32 ==> v >> (k as u32) == 0,
    ensures
        bits_value(field_bits(v, k)) == v,
    decreases k,
{
    if k == 0 {
        assert(v == 0) by (bit_vector)
            requires
                v >> 0u32 == 0,
        ;
    } else {
        let h = v >> 1u32;
        let kk = k as u32;
        assert(kk - 1 < 32 ==> h >> ((kk - 1) as u32) == 0) by (bit_vector)
            requires
                h == v >> 1u32,
                1 <= kk <= 32,
                kk < 32 ==> v >> kk == 0,
        ;
        lemma_value_of_field(h, (k - 1) as nat);
        assert forall|j: int| 0 <= j < k - 1 implies #[trigger] field_bits(v, k).drop_last()[j]
            == field_bits(h, (k - 1) as nat)[j] by {
            let s = (k - 2 - j) as u32;
            assert((v >> ((s + 1) as u32)) & 1u32 == (h >> s) & 1u32) by (bit_vector)
                requires
                    h == v >> 1u32,
                    s < 31,
            ;
        }
        assert(field_bits(v, k).drop_last() == field_bits(h, (k - 1) as nat));
        assert(v == 2 * h + (v & 1u32) && (v & 1u32 == 1u32 || v & 1u32 == 0u32) && (v >> 0u32)
            == v) by (bit_vector)
            requires
                h == v >> 1u32,
        ;
    }
}

/// The top `k` bits of a staging word spell its value shifted down.
proof fn lemma_top_value(buf: u32, k: nat)
    requires
        1 <= k <= 24,
    ensures
        bits_value(top_bits(buf, k)) == buf >> ((32 - k) as u32),
{
    let r = buf >> ((32 - k) as u32);
    let kk = k as u32;
    assert forall|j: int| 0 <= j < k implies #[trigger] top_bits(buf, k)[j] == field_bits(r, k)[j] by {
        let jj = j as u32;
        assert((buf >> ((31 - jj) as u32)) & 1u32 == (r >> ((kk - 1 - jj) as u32)) & 1u32)
            by (bit_vector)
            requires
                r == buf >> ((32 - kk) as u32),
                jj < kk,
                1 <= kk <= 24,
        ;
    }
    assert(top_bits(buf, k) == field_bits(r, k));
    assert(r >> kk == 0) by (bit_vector)
        requires
            r == buf >> ((32 - kk) as u32),
            1 <= kk <= 24,
    ;
    lemma_value_of_field(r, k);
}

/// Consuming the top `k` of `n` bits.
proof fn lemma_consume(buf: u32, n: nat, k: nat)
    requires
        1 <= k <= 24,
        k <= n <= 32,
        clean(buf, n),
    ensures
        top_bits(((buf & (((1u32 << ((32 - k) as u32)) - 1) as u32)) << (k as u32)) as u32, (n - k) as nat)
            == top_bits(buf, n).skip(k as int),
        clean(((buf & (((1u32 << ((32 - k) as u32)) - 1) as u32)) << (k as u32)) as u32, (n - k) as nat),
{
    let kk = k as u32;
    let nn = n as u32;
    let nb = ((buf & (((1u32 << ((32 - kk) as u32)) - 1) as u32)) << kk) as u32;
    assert forall|i: int| 0 <= i < n - k implies #[trigger] top_bits(nb, (n - k) as nat)[i]
        == top_bits(buf, n).skip(k as int)[i] by {
        let ii = i as u32;
        assert((nb >> ((31 - ii) as u32)) & 1u32 == (buf >> ((31 - (ii + kk)) as u32)) & 1u32)
            by (bit_vector)
            requires
                nb == ((buf & (((1u32 << ((32 - kk) as u32)) - 1) as u32)) << kk) as u32,
                1 <= kk <= 24,
                ii + kk < 32,
        ;
    }
    assert(nb & (0xffff_ffffu32 >> ((nn - kk) as u32)) == 0) by (bit_vector)
        requires
            nb == ((buf & (((1u32 << ((32 - kk) as u32)) - 1) as u32)) << kk) as u32,
            1 <= kk <= 24,
            kk <= nn <= 32,
            buf & (0xffff_ffffu32 >> nn) == 0,
    ;
    assert(top_bits(nb, (n - k) as nat) == top_bits(buf, n).skip(k as int));
}

pub proof fn lemma_bytes_front(s: Seq<u8>)
    requires
        s.len() > 0,
    ensures
        bytes_bits(s) == byte_bits(s[0]) + bytes_bits(s.skip(1)),
{
    lemma_bytes_bits_concat(seq![s[0]], s.skip(1));
    assert(seq![s[0]] + s.skip(1) == s);
    assert(seq![s[0]].drop_last() == Seq::<u8>::empty());
    assert(bytes_bits(Seq::<u8>::empty()) == Seq::<bool>::empty());
    assert(Seq::<bool>::empty() + byte_bits(s[0]) == byte_bits(s[0]));
    assert(bytes_bits(seq![s[0]]) == byte_bits(s[0]));
}

/// A byte-fed bit reader with one checkpoint.
pub struct BitReader {
    src: Vec<u8>,
    src_pos: usize,
    buffer: u32,
    bit_pos: u8,
    backup_buffer: Option<u32>,
    backup_bit_pos: Option<u8>,
}

impl BitReader {
    /// The bits not yet read, in order.
    pub closed spec fn remaining(&self) -> Seq<bool> {
        top_bits(self.buffer, self.bit_pos as nat) + bytes_bits(self.src@.skip(self.src_pos as int))
    }

    /// How many of those bits sit in the staging word.
    pub closed spec fn buffered(&self) -> nat {
        self.bit_pos as nat
    }

    /// The bits that a restore would bring back, while a checkpoint is held.
    pub closed spec fn saved(&self) -> Option<Seq<bool>> {
        match (self.backup_buffer, self.backup_bit_pos) {
            (Some(b), Some(p)) => Some(
                top_bits(b, p as nat) + bytes_bits(self.src@.skip(self.src_pos as int)),
            ),
            _ => None,
        }
    }

    /// Bits read since the checkpoint was taken.
    pub closed spec fn since_backup(&self) -> int {
        match self.backup_bit_pos {
            Some(p) => p - self.bit_pos,
            None => 0,
        }
    }

    pub closed spec fn wf(&self) -> bool {
        &&& self.bit_pos <= 32
        &&& clean(self.buffer, self.bit_pos as nat)
        &&& self.src_pos <= self.src@.len()
        &&& (self.backup_buffer is Some <==> self.backup_bit_pos is Some)
        &&& (self.backup_buffer matches Some(b) ==> self.backup_bit_pos matches Some(p) && p <= 32
            && clean(b, p as nat) && p >= self.bit_pos)
    }

    pub proof fn lemma_buffered(&self)
        requires
            self.wf(),
        ensures
            self.buffered() <= self.remaining().len(),
    {
    }

    /// A reader of `source`, with nothing buffered and no checkpoint.
    pub fn new(source: Vec<u8>) -> (r: BitReader)
        ensures
            r.wf(),
            r.remaining() == bytes_bits(source@),
            r.buffered() == 0,
            r.saved() is None,
            r.since_backup() == 0,
    {
        let r = BitReader {
            src: source,
            src_pos: 0,
            buffer: 0,
            bit_pos: 0,
            backup_buffer: None,
            backup_bit_pos: None,
        };
        assert(0u32 & (0xffff_ffffu32 >> 0u32) == 0) by (bit_vector);
        assert(r.src@.skip(0) == r.src@);
        assert(r.remaining() == bytes_bits(source@));
        r
    }

    /// Reads `num_bits` bits, most significant first. Fails with `UnexpectedEndOfStream`, having
    /// consumed nothing, when fewer remain.
    pub fn read(&mut self, num_bits: u8) -> (r: Result<u32, TampError>)
        requires
            old(self).wf(),
            1 <= num_bits <= 24,
            old(self).since_backup() + num_bits <= 24,
        ensures
            final(self).wf(),
            final(self).saved() == old(self).saved(),
            final(self).saved() is None ==> final(self).since_backup() == 0,
            r is Err <==> old(self).remaining().len() < num_bits,
            r is Err ==> r == Err::<u32, TampError>(TampError::UnexpectedEndOfStream)
                && final(self).remaining() == old(self).remaining()
                && final(self).buffered() == old(self).remaining().len()
                && final(self).since_backup() == old(self).since_backup(),
            r matches Ok(v) ==> {
                &&& v >> (num_bits as u32) == 0
                &&& v == bits_value(old(self).remaining().take(num_bits as int))
                &&& final(self).remaining() == old(self).remaining().skip(num_bits as int)
                &&& final(self).buffered() == after_read(old(self).buffered() as int, num_bits as int)
                &&& old(self).saved() is Some ==> final(self).since_backup() == old(self).since_backup() + num_bits
            },
    {
        let k = num_bits;
        while self.bit_pos < k
            invariant
                self.wf(),
                k == num_bits,
                1 <= k <= 24,
                self.saved() == old(self).saved(),
                self.remaining() == old(self).remaining(),
                self.since_backup() == old(self).since_backup(),
                self.since_backup() + k <= 24,
                self.saved() is None ==> self.since_backup() == 0,
                self.bit_pos < k + 8 || self.bit_pos == old(self).bit_pos,
                self.bit_pos >= old(self).bit_pos,
                (self.bit_pos - old(self).bit_pos) % 8 == 0,
            decreases self.src@.len() - self.src_pos,
        {
            if self.src_pos >= self.src.len() {
                proof {
                    assert(self.src@.skip(self.src_pos as int) == Seq::<u8>::empty());
                    assert(bytes_bits(Seq::<u8>::empty()) == Seq::<bool>::empty());
                    assert(self.remaining().len() == self.bit_pos);
                }
                return Err(TampError::UnexpectedEndOfStream);
            }
            let byte_value = self.src[self.src_pos] as u32;
            proof {
                lemma_bytes_front(self.src@.skip(self.src_pos as int));
                assert(self.src@.skip(self.src_pos as int).skip(1) == self.src@.skip(
                    self.src_pos + 1,
                ));
                assert(byte_value >> 8u32 == 0) by (bit_vector)
                    requires
                        byte_value < 256,
                ;
                assert(byte_bits(self.src@[self.src_pos as int]) == field_bits(byte_value, 8));
                lemma_append_field(self.buffer, self.bit_pos as nat, byte_value, 8);
            }
            self.buffer = self.buffer | (byte_value << (24 - self.bit_pos) as u32);
            self.bit_pos = self.bit_pos + 8;
            if self.backup_buffer.is_some() && self.backup_bit_pos.is_some() {
                let bb = self.backup_buffer.unwrap();
                let bp = self.backup_bit_pos.unwrap();
                proof {
                    lemma_append_field(bb, bp as nat, byte_value, 8);
                }
                self.backup_buffer = Some(bb | (byte_value << (24 - bp) as u32));
                self.backup_bit_pos = Some(bp + 8);
            }
            self.src_pos = self.src_pos + 1;
        }
        let ghost rem = self.remaining();
        proof {
            lemma_top_value(self.buffer, k as nat);
            lemma_consume(self.buffer, self.bit_pos as nat, k as nat);
            assert(top_bits(self.buffer, self.bit_pos as nat).take(k as int) == top_bits(
                self.buffer,
                k as nat,
            ));
            assert(rem.take(k as int) == top_bits(self.buffer, k as nat));
        }
        let result = self.buffer >> (32 - k) as u32;
        let b = self.buffer;
        assert(result >> (k as u32) == 0) by (bit_vector)
            requires
                result == b >> ((32 - k) as u32),
                1 <= k <= 24,
        ;
        assert(1u32 << ((32 - k) as u32) >= 1) by (bit_vector)
            requires
                1 <= k <= 24,
        ;
        let mask: u32 = (1u32 << (32 - k) as u32) - 1;
        self.buffer = (self.buffer & mask) << k as u32;
        self.bit_pos = self.bit_pos - k;
        proof {
            assert(self.remaining() == rem.skip(k as int));
            let n0 = old(self).bit_pos as int;
            let n1 = self.bit_pos as int;
            assert(result == bits_value(old(self).remaining().take(k as int)));
            if n0 < k {
                vstd::arithmetic::div_mod::lemma_fundamental_div_mod(n1 + k - n0, 8);
                let p = (n1 + k - n0) / 8;
                vstd::arithmetic::div_mod::lemma_fundamental_div_mod_converse_mod(n0 - k, 8, -p, n1);
            }
        }
        Ok(result)
    }

    /// Reads a length code: one bit at a time, up to eight, until the bits read spell a code.
    /// Returns its index, or the FLUSH marker.
    pub fn read_huffman(&mut self) -> (r: Result<u8, TampError>)
        requires
            old(self).wf(),
            old(self).since_backup() + 8 <= 24,
        ensures
            final(self).wf(),
            final(self).saved() == old(self).saved(),
            final(self).since_backup() <= old(self).since_backup() + 8,
            match huffman_decode(old(self).remaining()) {
                Ok((s, t)) => {
                    &&& r == Ok::<u8, TampError>(s)
                    &&& final(self).remaining() == old(self).remaining().skip(t)
                    &&& final(self).buffered() == after_read(old(self).buffered() as int, t)
                },
                Err(e) => r == Err::<u8, TampError>(e),
            },
    {
        let ghost rem0 = self.remaining();
        let mut proposed_code: u32 = 0;
        let mut t: u8 = 0;
        assert(rem0.take(0) == Seq::<bool>::empty());
        while t < 8
            invariant
                self.wf(),
                t <= 8,
                self.saved() == old(self).saved(),
                old(self).saved() is Some ==> self.since_backup() == old(self).since_backup() + t,
                self.since_backup() <= old(self).since_backup() + t,
                old(self).since_backup() + 8 <= 24,
                rem0 == old(self).remaining(),
                rem0.len() >= t,
                self.remaining() == rem0.skip(t as int),
                self.buffered() == after_read(old(self).buffered() as int, t as int),
                proposed_code == bits_value(rem0.take(t as int)),
                proposed_code < pow2(t as nat),
                huffman_decode(rem0) == huffman_scan(rem0, t as int + 1),
            decreases 8 - t,
        {
            let bit = match self.read(1) {
                Ok(b) => b,
                Err(e) => {
                    return Err(e);
                },
            };
            proof {
                lemma_after_read_step(old(self).buffered() as int, t as int);
                let one = rem0.skip(t as int).take(1);
                assert(one == seq![rem0[t as int]]);
                assert(one.drop_last() == Seq::<bool>::empty());
                assert(bits_value(Seq::<bool>::empty()) == 0);
                assert(rem0.take(t + 1).drop_last() == rem0.take(t as int));
                assert(rem0.take(t + 1).last() == rem0[t as int]);
                assert(bit < 2);
            }
            let pc = proposed_code;
            proposed_code = (proposed_code << 1u32) | bit;
            assert(proposed_code == 2 * pc + bit) by (bit_vector)
                requires
                    proposed_code == (pc << 1u32) | bit,
                    pc < 256,
                    bit < 2,
            ;
            t = t + 1;
            if let Some(val) = huffman_lookup(proposed_code) {
                return Ok(val);
            }
        }
        Err(TampError::MalformedCode)
    }

    /// Drops every buffered bit and the checkpoint.
    pub fn clear(&mut self)
        requires
            old(self).wf(),
        ensures
            final(self).wf(),
            final(self).remaining() == old(self).remaining().skip(old(self).buffered() as int),
            final(self).buffered() == 0,
            final(self).saved() is None,
    {
        self.buffer = 0;
        self.bit_pos = 0;
        self.backup_buffer = None;
        self.backup_bit_pos = None;
        assert(0u32 & (0xffff_ffffu32 >> 0u32) == 0) by (bit_vector);
    }

    /// Releases the reader.
    pub fn close(self) {
    }

    /// The number of buffered bits.
    pub fn len(&self) -> (r: u8)
        ensures
            r == self.buffered(),
    {
        self.bit_pos
    }

    /// Takes a checkpoint at the current position, replacing any earlier one.
    pub fn backup(&mut self)
        requires
            old(self).wf(),
        ensures
            final(self).wf(),
            final(self).remaining() == old(self).remaining(),
            final(self).buffered() == old(self).buffered(),
            final(self).saved() == Some(old(self).remaining()),
            final(self).since_backup() == 0,
    {
        self.backup_buffer = Some(self.buffer);
        self.backup_bit_pos = Some(self.bit_pos);
    }

    /// Returns to the checkpoint, if one is held, and drops it.
    pub fn restore(&mut self)
        requires
            old(self).wf(),
        ensures
            final(self).wf(),
            final(self).remaining() == match old(self).saved() {
                Some(s) => s,
                None => old(self).remaining(),
            },
            old(self).saved() is None ==> final(self).buffered() == old(self).buffered(),
            final(self).saved() is None,
            final(self).since_backup() == 0,
    {
        if let (Some(buf), Some(pos)) = (self.backup_buffer, self.backup_bit_pos) {
            self.buffer = buf;
            self.bit_pos = pos;
        }
        self.backup_buffer = None;
        self.backup_bit_pos = None;
    }
}

/// Taking a checkpoint, reading, and restoring leaves the bits still to be read as they were:
/// `taken` is the reader after `backup` on `before`, `read` after any reads on `taken`, and
/// `restored` after `restore` on `read`, each as those functions' contracts describe it.
pub proof fn lemma_backup_read_restore(
    before: BitReader,
    taken: BitReader,
    read: BitReader,
    restored: BitReader,
)
    requires
        before.wf(),
        taken.saved() == Some(before.remaining()),
        read.saved() == taken.saved(),
        restored.remaining() == match read.saved() {
            Some(s) => s,
            None => read.remaining(),
        },
    ensures
        restored.remaining() == before.remaining(),
{
}

} // verus!
