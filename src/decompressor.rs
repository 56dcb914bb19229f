//! The token decoder and its model.
use crate::bit_reader::{after_read, huffman_decode, huffman_scan, lemma_bytes_front, BitReader};
use crate::bits::{bits_value, byte_bits, bytes_bits};
use crate::common::{
    min_pattern_size_spec, seed_dictionary, tamp_compute_min_pattern_size,
    tamp_initialize_dictionary,
};
use crate::compressor::{opt_view, valid_params, window_size};
use crate::error::TampError;
use crate::huffman::FLUSH_MARKER;
use crate::ring_buffer::{ring_write, RingBuffer};
use vstd::prelude::*;
use vstd::slice::slice_to_vec;
use vstd::utf8::{decode_utf8, valid_utf8};

verus! {

/// What a decoder holds between tokens.
pub struct DecoderState {
    /// The stream's bits not yet read.
    pub rest: Seq<bool>,
    /// How many of them the bit reader's staging word holds.
    pub buffered: nat,
    /// The window's bytes.
    pub window: Seq<u8>,
    /// The window's insertion position.
    pub pos: int,
}

/// What decoding one token gives.
pub enum Token {
    /// The bytes of a literal or pattern token, and the state after it.
    Bytes(Seq<u8>, DecoderState),
    /// A FLUSH marker, and the state after realigning to the next source byte.
    Flush(DecoderState),
    /// The stream ends before the token does.
    End,
    /// The stream is malformed.
    Fail(TampError),
}

/// A literal token: the flag bit 1, then the byte in `literal` bits.
pub open spec fn literal_step(st: DecoderState, literal: u8) -> Token {
    let r = st.rest;
    let l = literal as int;
    let c = bits_value(r.subrange(1, 1 + l)) as u8;
    Token::Bytes(
        seq![c],
        DecoderState {
            rest: r.skip(1 + l),
            buffered: after_read(after_read(st.buffered as int, 1) as int, l),
            window: st.window.update(st.pos, c),
            pos: (st.pos + 1) % (st.window.len() as int),
        },
    )
}

/// A FLUSH marker of `1 + t` bits: the rest of the staging word is dropped.
pub open spec fn flush_step(st: DecoderState, t: int) -> Token {
    let b2 = after_read(after_read(st.buffered as int, 1) as int, t);
    Token::Flush(DecoderState { rest: st.rest.skip(1 + t).skip(b2 as int), buffered: 0, ..st })
}

/// A pattern token whose length code, of `1 + t` bits, has index `s`: the position in
/// `window` bits follows, and the run is read from the window before it is written back.
pub open spec fn pattern_step(st: DecoderState, window: u8, literal: u8, s: u8, t: int) -> Token {
    let r = st.rest;
    let n = st.window.len() as int;
    let w = window as int;
    let p = bits_value(r.subrange(1 + t, 1 + t + w)) as int;
    let len = s + min_pattern_size_spec(w, literal as int);
    let run = Seq::new(len as nat, |i: int| st.window[(p + i) % n]);
    Token::Bytes(
        run,
        DecoderState {
            rest: r.skip(1 + t + w),
            buffered: after_read(after_read(after_read(st.buffered as int, 1) as int, t) as int, w),
            window: ring_write(st.window, st.pos, run),
            pos: (st.pos + len) % n,
        },
    )
}

/// Decodes the token at the front of the stream.
#[verifier::opaque]
pub open spec fn decode_token(st: DecoderState, window: u8, literal: u8) -> Token {
    let r = st.rest;
    if r.len() < 1 {
        Token::End
    } else if r[0] {
        if r.len() < 1 + literal {
            Token::End
        } else {
            literal_step(st, literal)
        }
    } else {
        match huffman_decode(r.skip(1)) {
            Err(TampError::UnexpectedEndOfStream) => Token::End,
            Err(e) => Token::Fail(e),
            Ok((s, t)) => if s == FLUSH_MARKER {
                flush_step(st, t)
            } else if r.len() < 1 + t + window {
                Token::End
            } else {
                pattern_step(st, window, literal, s, t)
            },
        }
    }
}

pub(crate) proof fn lemma_token_end(st: DecoderState, window: u8, literal: u8)
    requires
        st.rest.len() < 1 || (st.rest[0] && st.rest.len() < 1 + literal) || (!st.rest[0]
            && huffman_decode(st.rest.skip(1)) == Err::<(u8, int), TampError>(
            TampError::UnexpectedEndOfStream,
        )) || (!st.rest[0] && (huffman_decode(st.rest.skip(1)) matches Ok((s, t)) && s
            != FLUSH_MARKER && st.rest.len() < 1 + t + window)),
    ensures
        decode_token(st, window, literal) is End,
{
    reveal(decode_token);
}

pub(crate) proof fn lemma_token_literal(st: DecoderState, window: u8, literal: u8)
    requires
        st.rest.len() >= 1 + literal,
        st.rest[0],
    ensures
        decode_token(st, window, literal) == literal_step(st, literal),
{
    reveal(decode_token);
}

pub(crate) proof fn lemma_token_code(st: DecoderState, window: u8, literal: u8)
    requires
        st.rest.len() >= 1,
        !st.rest[0],
    ensures
        match huffman_decode(st.rest.skip(1)) {
            Err(TampError::UnexpectedEndOfStream) => true,
            Err(e) => decode_token(st, window, literal) == Token::Fail(e),
            Ok((s, t)) => if s == FLUSH_MARKER {
                decode_token(st, window, literal) == flush_step(st, t)
            } else if st.rest.len() < 1 + t + window {
                true
            } else {
                decode_token(st, window, literal) == pattern_step(st, window, literal, s, t)
            },
        },
{
    reveal(decode_token);
}

/// Decodes tokens until the stream ends or fails: the bytes produced, and the failure if any.
pub open spec fn decode_from(st: DecoderState, window: u8, literal: u8) -> (Seq<u8>, Option<TampError>)
    decreases st.rest.len(),
{
    match decode_token(st, window, literal) {
        Token::End => (Seq::empty(), None),
        Token::Fail(e) => (Seq::empty(), Some(e)),
        Token::Flush(s) => if s.rest.len() < st.rest.len() {
            decode_from(s, window, literal)
        } else {
            (Seq::empty(), None)
        },
        Token::Bytes(b, s) => if s.rest.len() < st.rest.len() {
            let (d, e) = decode_from(s, window, literal);
            (b + d, e)
        } else {
            (b, None)
        },
    }
}

/// Reading the header of `data`: window and literal sizes and the state before the first
/// token, or why the stream cannot be decoded.
pub open spec fn open_spec(data: Seq<u8>, dict: Option<Seq<u8>>) -> Result<(u8, u8, DecoderState), TampError> {
    let bits = bytes_bits(data);
    if data.len() == 0 {
        Err(TampError::UnexpectedEndOfStream)
    } else {
        let w = (bits_value(bits.take(3)) + 8) as u8;
        let l = (bits_value(bits.subrange(3, 5)) + 5) as u8;
        if bits[6] || bits[7] {
            Err(TampError::UnsupportedHeader)
        } else if bits[5] && dict is None {
            Err(TampError::DictionaryRequired)
        } else if dict matches Some(d) && d.len() != window_size(w) {
            Err(TampError::InvalidParameter)
        } else {
            Ok(
                (
                    w,
                    l,
                    DecoderState {
                        rest: bits.skip(8),
                        buffered: 0,
                        window: match dict {
                            Some(d) => d,
                            None => seed_dictionary(window_size(w)),
                        },
                        pos: 0,
                    },
                ),
            )
        }
    }
}

/// The bytes that `data` decompresses to.
pub open spec fn decompress_spec(data: Seq<u8>, dict: Option<Seq<u8>>) -> Result<Seq<u8>, TampError> {
    match open_spec(data, dict) {
        Err(e) => Err(e),
        Ok((w, l, st)) => match decode_from(st, w, l) {
            (d, None) => Ok(d),
            (_, Some(e)) => Err(e),
        },
    }
}

proof fn lemma_huffman_scan_range(bits: Seq<bool>, t: int)
    ensures
        huffman_scan(bits, t) matches Ok((s, u)) ==> (s <= 13 || s == FLUSH_MARKER) && 1 <= u <= 8
            && u <= bits.len(),
    decreases 9 - t,
{
    if 1 <= t <= 8 && bits.len() >= t {
        lemma_huffman_scan_range(bits, t + 1);
    }
}

/// Copies the first `count` bytes of `src` into `buf` from `at` on.
fn copy_into(buf: &mut [u8], at: usize, src: &Vec<u8>, count: usize)
    requires
        count <= src@.len(),
        at + count <= old(buf)@.len(),
    ensures
        final(buf)@.len() == old(buf)@.len(),
        forall|k: int| 0 <= k < at ==> #[trigger] final(buf)@[k] == old(buf)@[k],
        forall|k: int| 0 <= k < count ==> #[trigger] final(buf)@[at + k] == src@[k],
        forall|k: int| at + count <= k < old(buf)@.len() ==> #[trigger] final(buf)@[k] == old(buf)@[k],
{
    let n = buf.len();
    let mut j: usize = 0;
    while j < count
        invariant
            n == buf@.len(),
            j <= count,
            count <= src@.len(),
            at + count <= buf@.len(),
            buf@.len() == old(buf)@.len(),
            forall|k: int| 0 <= k < at ==> #[trigger] buf@[k] == old(buf)@[k],
            forall|k: int| 0 <= k < j ==> #[trigger] buf@[at + k] == src@[k],
            forall|k: int| at + j <= k < old(buf)@.len() ==> #[trigger] buf@[k] == old(buf)@[k],
        decreases count - j,
    {
        buf[at + j] = src[j];
        j += 1;
    }
}

/// A streaming decompressor over an in-memory compressed stream.
pub struct Decompressor {
    bit_reader: BitReader,
    window_bits: u8,
    literal_bits: u8,
    min_pattern_size: usize,
    window_buffer: RingBuffer,
    overflow: Vec<u8>,
}

impl Decompressor {
    pub closed spec fn window(&self) -> u8 {
        self.window_bits
    }

    pub closed spec fn literal(&self) -> u8 {
        self.literal_bits
    }

    /// The state before the next token.
    pub closed spec fn state(&self) -> DecoderState {
        DecoderState {
            rest: self.bit_reader.remaining(),
            buffered: self.bit_reader.buffered(),
            window: self.window_buffer.buffer@,
            pos: self.window_buffer.pos as int,
        }
    }

    /// Bytes decoded but not yet delivered.
    pub closed spec fn overflow_bytes(&self) -> Seq<u8> {
        self.overflow@
    }

    /// Every byte still to be produced: the overflow, then the rest of the stream decoded.
    pub closed spec fn pending_bytes(&self) -> Seq<u8> {
        self.overflow@ + decode_from(self.state(), self.window_bits, self.literal_bits).0
    }

    /// The failure that decoding the rest of the stream runs into, if any.
    pub closed spec fn pending_error(&self) -> Option<TampError> {
        decode_from(self.state(), self.window_bits, self.literal_bits).1
    }

    pub closed spec fn wf(&self) -> bool {
        &&& valid_params(self.window_bits as int, self.literal_bits as int)
        &&& self.window_buffer.wf()
        &&& self.window_buffer.size == window_size(self.window_bits)
        &&& self.min_pattern_size == min_pattern_size_spec(
            self.window_bits as int,
            self.literal_bits as int,
        )
        &&& self.bit_reader.wf()
    }

    /// Reads the header of `source` and makes a decompressor for the rest. Fails with
    /// `UnexpectedEndOfStream` on an empty source, `UnsupportedHeader` when the reserved or the
    /// "more header bytes" bit is set, `DictionaryRequired` when the stream needs a dictionary
    /// and none is given, and `InvalidParameter` when the dictionary's length is not the
    /// window's.
    pub fn new(source: Vec<u8>, dictionary: Option<Vec<u8>>) -> (r: Result<Decompressor, TampError>)
        ensures
            match open_spec(source@, opt_view(dictionary)) {
                Ok((w, l, st)) => r matches Ok(d) && d.wf() && d.window() == w && d.literal() == l
                    && d.state() == st && d.overflow_bytes().len() == 0 && d.pending_bytes()
                    == decode_from(st, w, l).0 && d.pending_error() == decode_from(st, w, l).1,
                Err(e) => r == Err::<Decompressor, TampError>(e),
            },
    {
        let ghost bits = bytes_bits(source@);
        let mut bit_reader = BitReader::new(source);
        proof {
            crate::bits::lemma_bytes_bits_len(source@);
        }
        let w = match bit_reader.read(3) {
            Ok(v) => v,
            Err(e) => {
                return Err(e);
            },
        };
        let l = match bit_reader.read(2) {
            Ok(v) => v,
            Err(e) => {
                return Err(e);
            },
        };
        let custom = match bit_reader.read(1) {
            Ok(v) => v,
            Err(e) => {
                return Err(e);
            },
        };
        let reserved = match bit_reader.read(1) {
            Ok(v) => v,
            Err(e) => {
                return Err(e);
            },
        };
        let more_header_bytes = match bit_reader.read(1) {
            Ok(v) => v,
            Err(e) => {
                return Err(e);
            },
        };
        proof {
            assert(bits.skip(3).take(2) == bits.subrange(3, 5));
            assert(bits.skip(5).take(1) == seq![bits[5]]);
            assert(bits.skip(6).take(1) == seq![bits[6]]);
            assert(bits.skip(7).take(1) == seq![bits[7]]);
            assert(bits.skip(3).skip(2) == bits.skip(5));
            assert(bits.skip(5).skip(1) == bits.skip(6));
            assert(bits.skip(6).skip(1) == bits.skip(7));
            assert(bits.skip(7).skip(1) == bits.skip(8));
            assert(seq![bits[5]].drop_last() == Seq::<bool>::empty());
            assert(seq![bits[6]].drop_last() == Seq::<bool>::empty());
            assert(seq![bits[7]].drop_last() == Seq::<bool>::empty());
            assert(bits_value(Seq::<bool>::empty()) == 0);
        }
        assert(w >> 3u32 == 0 ==> w < 8) by (bit_vector);
        assert(l >> 2u32 == 0 ==> l < 4) by (bit_vector);
        let window_bits = w as u8 + 8;
        let literal_bits = l as u8 + 5;
        if reserved != 0 || more_header_bytes != 0 {
            return Err(TampError::UnsupportedHeader);
        }
        if custom != 0 && dictionary.is_none() {
            return Err(TampError::DictionaryRequired);
        }
        proof {
            crate::compressor::lemma_window_size(window_bits);
        }
        let dict_size = (1u32 << window_bits as u32) as usize;
        let dict = match dictionary {
            Some(d) => {
                if d.len() != dict_size {
                    return Err(TampError::InvalidParameter);
                }
                d
            },
            None => {
                let mut d: Vec<u8> = vec![0u8; dict_size];
                tamp_initialize_dictionary(d.as_mut_slice());
                d
            },
        };
        let min_pattern_size = tamp_compute_min_pattern_size(window_bits, literal_bits) as usize;
        let window_buffer = RingBuffer::new(dict);
        let d = Decompressor {
            bit_reader,
            window_bits,
            literal_bits,
            min_pattern_size,
            window_buffer,
            overflow: Vec::new(),
        };
        proof {
            let dd = decode_from(d.state(), window_bits, literal_bits).0;
            assert(d.overflow@ + dd == dd);
        }
        Ok(d)
    }

    /// The `match_size` window bytes from position `index` on, read circularly.
    fn copy_run(&self, index: u32, match_size: usize) -> (run: Vec<u8>)
        requires
            self.window_buffer.wf(),
            index < 32768,
            match_size <= 20,
        ensures
            run@ == Seq::new(
                match_size as nat,
                |q: int| self.window_buffer.buffer@[(index as int + q) % (self.window_buffer.size as int)],
            ),
    {
        let size = self.window_buffer.size;
        let mut run: Vec<u8> = Vec::with_capacity(match_size);
        let mut i: usize = 0;
        while i < match_size
            invariant
                self.window_buffer.wf(),
                size == self.window_buffer.size,
                i <= match_size,
                index < 32768,
                match_size <= 20,
                run@.len() == i,
                forall|j: int|
                    0 <= j < i ==> run@[j] == self.window_buffer.buffer@[(index as int + j) % (
                    size as int)],
            decreases match_size - i,
        {
            let idx = (index as usize + i) % size;
            run.push(self.window_buffer.buffer[idx]);
            i += 1;
        }
        run
    }

    /// Decodes into `buf`: first the overflow of an earlier call, then token after token
    /// until `buf` is full or the stream ends. Bytes of a pattern that do not fit are kept for
    /// the next call. A token cut short by the end of the stream is left unread. Returns how
    /// many bytes were written, or the failure that decoding reaches before `buf` is full.
    #[verifier::rlimit(100)]
    pub fn read_into(&mut self, buf: &mut [u8]) -> (r: Result<usize, TampError>)
        requires
            old(self).wf(),
        ensures
            final(buf)@.len() == old(buf)@.len(),
            r matches Ok(n) ==> forall|k: int|
                n <= k < old(buf)@.len() ==> #[trigger] final(buf)@[k] == old(buf)@[k],
            old(self).overflow_bytes().len() > old(buf)@.len() ==> final(self).state() == old(
                self,
            ).state(),
            (old(self).pending_error() is None || old(self).pending_bytes().len() >= old(buf)@.len())
                ==> {
                let m = if old(buf)@.len() < old(self).pending_bytes().len() {
                    old(buf)@.len() as int
                } else {
                    old(self).pending_bytes().len() as int
                };
                &&& r == Ok::<usize, TampError>(m as usize)
                &&& final(buf)@.take(m) == old(self).pending_bytes().take(m)
                &&& final(self).wf()
                &&& final(self).window() == old(self).window()
                &&& final(self).literal() == old(self).literal()
                &&& final(self).pending_bytes() == old(self).pending_bytes().skip(m)
                &&& final(self).pending_error() == old(self).pending_error()
            },
            old(self).pending_error() matches Some(e) ==> (old(self).pending_bytes().len() < old(
                buf,
            )@.len() ==> r == Err::<usize, TampError>(e)),
    {
        let ghost all = old(self).pending_bytes();
        let ghost err = old(self).pending_error();
        let m = buf.len();
        let mut written: usize = 0;
        let ghost ov = self.overflow@;
        if self.overflow.len() > m {
            copy_into(buf, 0, &self.overflow, m);
            proof {
                assert forall|k: int| 0 <= k < m implies #[trigger] buf@.take(m as int)[k] == all.take(
                    m as int,
                )[k] by {
                    assert(buf@[0 + k] == ov[k]);
                }
            }
            let rest = self.overflow.split_off(m);
            self.overflow = rest;
            proof {
                assert(buf@.take(m as int) == all.take(m as int));
                assert(self.pending_bytes() == all.skip(m as int));
            }
            return Ok(m);
        } else if self.overflow.len() > 0 {
            let n = self.overflow.len();
            copy_into(buf, 0, &self.overflow, n);
            proof {
                assert forall|k: int| 0 <= k < n implies #[trigger] buf@.take(n as int)[k] == all.take(
                    n as int,
                )[k] by {
                    assert(buf@[0 + k] == ov[k]);
                }
            }
            written = n;
            self.overflow.clear();
        }
        proof {
            assert(buf@.take(written as int) == all.take(written as int));
            assert(self.pending_bytes() == all.skip(written as int));
        }
        while written < m
            invariant_except_break
                self.overflow@.len() == 0,
            invariant
                self.wf(),
                self.window() == old(self).window(),
                self.literal() == old(self).literal(),
                m == buf@.len(),
                m == old(buf)@.len(),
                all == old(self).pending_bytes(),
                err == old(self).pending_error(),
                written <= m,
                written <= all.len(),
                buf@.take(written as int) == all.take(written as int),
                self.pending_bytes() == all.skip(written as int),
                self.pending_error() == err,
                forall|k: int| written <= k < m ==> #[trigger] buf@[k] == old(buf)@[k],
            ensures
                written < m ==> written == all.len() && err is None,
            decreases m - written, self.bit_reader.remaining().len(),
        {
            let ghost st = self.state();
            let ghost r = st.rest;
            proof {
                self.bit_reader.lemma_buffered();
                assert(self.overflow@ + decode_from(st, self.window_bits, self.literal_bits).0
                    == decode_from(st, self.window_bits, self.literal_bits).0);
                lemma_huffman_scan_range(r.skip(1), 1);
            }
            self.bit_reader.backup();
            let flag = match self.bit_reader.read(1) {
                Ok(b) => b,
                Err(_) => {
                    self.bit_reader.restore();
                    proof {
                        lemma_token_end(self.state(), self.window_bits, self.literal_bits);
                        lemma_token_end(st, self.window_bits, self.literal_bits);
                    }
                    break;
                },
            };
            proof {
                assert(r.take(1) == seq![r[0]]);
                assert(seq![r[0]].drop_last() == Seq::<bool>::empty());
                assert(bits_value(Seq::<bool>::empty()) == 0);
            }
            if flag != 0 {
                let v = match self.bit_reader.read(self.literal_bits) {
                    Ok(v) => v,
                    Err(_) => {
                        self.bit_reader.restore();
                        proof {
                            lemma_token_end(self.state(), self.window_bits, self.literal_bits);
                        lemma_token_end(st, self.window_bits, self.literal_bits);
                        }
                        break;
                    },
                };
                let lb = self.literal_bits;
                assert(v >> (lb as u32) == 0 ==> v < 256) by (bit_vector)
                    requires
                        lb <= 8,
                ;
                let c = v as u8;
                self.window_buffer.write_byte(c);
                let ghost pre_buf = buf@;
                buf[written] = c;
                proof {
                    let l = self.literal_bits as int;
                    assert(r.skip(1).take(l) == r.subrange(1, 1 + l));
                    assert(r.skip(1).skip(l) == r.skip(1 + l));
                    let s2 = self.state();
                    lemma_token_literal(st, self.window_bits, self.literal_bits);
                    assert(literal_step(st, self.literal_bits) == Token::Bytes(seq![c], s2));
                    let d2 = decode_from(s2, self.window_bits, self.literal_bits);
                    assert(all.skip(written as int) == seq![c] + d2.0);
                    assert(all.skip(written + 1) == all.skip(written as int).skip(1));
                    assert((seq![c] + d2.0).skip(1) == d2.0);
                    assert(all[written as int] == all.skip(written as int)[0]);
                    assert forall|k: int| 0 <= k < written + 1 implies #[trigger] buf@[k] == all[k] by {
                        if k < written {
                            assert(pre_buf.take(written as int)[k] == all.take(written as int)[k]);
                        }
                    }
                    assert(buf@.take(written + 1) == all.take(written + 1));
                }
                written += 1;
            } else {
                proof {
                    lemma_token_code(st, self.window_bits, self.literal_bits);
                }
                let code = match self.bit_reader.read_huffman() {
                    Ok(v) => v,
                    Err(TampError::UnexpectedEndOfStream) => {
                        self.bit_reader.restore();
                        proof {
                            lemma_token_end(self.state(), self.window_bits, self.literal_bits);
                        lemma_token_end(st, self.window_bits, self.literal_bits);
                        }
                        break;
                    },
                    Err(e) => {
                        return Err(e);
                    },
                };
                let ghost t = huffman_decode(r.skip(1))->Ok_0.1;
                proof {
                    assert(r.skip(1).skip(t) == r.skip(1 + t));
                }
                if code == FLUSH_MARKER {
                    proof {
                        self.bit_reader.lemma_buffered();
                    }
                    self.bit_reader.clear();
                    proof {
                        assert(flush_step(st, t) == Token::Flush(self.state()));
                    }
                    continue;
                }
                let index = match self.bit_reader.read(self.window_bits) {
                    Ok(v) => v,
                    Err(_) => {
                        self.bit_reader.restore();
                        proof {
                            lemma_token_end(self.state(), self.window_bits, self.literal_bits);
                        lemma_token_end(st, self.window_bits, self.literal_bits);
                        }
                        break;
                    },
                };
                let wb = self.window_bits;
                assert(index >> (wb as u32) == 0 ==> index < 32768) by (bit_vector)
                    requires
                        wb <= 15,
                ;
                let match_size = code as usize + self.min_pattern_size;
                let mut run = self.copy_run(index, match_size);
                self.window_buffer.write_bytes(run.as_slice());
                let room = m - written;
                let to_buf = if room < match_size {
                    room
                } else {
                    match_size
                };
                let ghost pre_buf = buf@;
                copy_into(buf, written, &run, to_buf);
                proof {
                    let w = self.window_bits as int;
                    assert(r.skip(1 + t).take(w) == r.subrange(1 + t, 1 + t + w));
                    assert(r.skip(1 + t).skip(w) == r.skip(1 + t + w));
                    let s2 = self.state();
                    assert(pattern_step(st, self.window_bits, self.literal_bits, code, t)
                        == Token::Bytes(run@, s2));
                    let d2 = decode_from(s2, self.window_bits, self.literal_bits);
                    assert(all.skip(written as int) == run@ + d2.0);
                    assert forall|k: int| 0 <= k < written + to_buf implies #[trigger] buf@[k]
                        == all[k] by {
                        if k < written {
                            assert(pre_buf.take(written as int)[k] == all.take(written as int)[k]);
                        } else {
                            assert(buf@[written + (k - written)] == run@[k - written]);
                            assert(all.skip(written as int)[k - written] == all[k]);
                        }
                    }
                    assert(buf@.take(written + to_buf) == all.take(written + to_buf));
                    assert(all.skip(written + to_buf) == all.skip(written as int).skip(to_buf as int));
                    assert((run@ + d2.0).skip(to_buf as int) == run@.skip(to_buf as int) + d2.0);
                }
                written += to_buf;
                if to_buf < match_size {
                    self.overflow = run.split_off(to_buf);
                    break;
                }
            }
        }
        Ok(written)
    }
}

/// Relies on `String::from_utf8`: it succeeds exactly on valid UTF-8, and the string holds the
/// characters that the bytes encode.
#[verifier::external_body]
fn string_from_utf8(bytes: Vec<u8>) -> (r: Option<String>)
    ensures
        r is Some <==> valid_utf8(bytes@),
        r matches Some(s) ==> s@ == decode_utf8(bytes@),
{
    String::from_utf8(bytes).ok()
}

impl Decompressor {
    /// Decodes everything that is left.
    fn read_all(&mut self) -> (r: Result<Vec<u8>, TampError>)
        requires
            old(self).wf(),
        ensures
            match old(self).pending_error() {
                None => r is Ok && r->Ok_0@ == old(self).pending_bytes(),
                Some(e) => r == Err::<Vec<u8>, TampError>(e),
            },
    {
        let ghost all = self.pending_bytes();
        let ghost err = self.pending_error();
        let mut buf: Vec<u8> = Vec::new();
        let mut chunk: Vec<u8> = vec![0u8; 4096];
        loop
            invariant
                self.wf(),
                chunk@.len() == 4096,
                all == old(self).pending_bytes(),
                err == old(self).pending_error(),
                buf@ + self.pending_bytes() == all,
                self.pending_error() == err,
            ensures
                buf@ == all,
                err is None,
            decreases self.pending_bytes().len(),
        {
            let read = match self.read_into(chunk.as_mut_slice()) {
                Ok(n) => n,
                Err(e) => {
                    return Err(e);
                },
            };
            if read == 0 {
                proof {
                    assert(buf@ + self.pending_bytes() == buf@);
                }
                break;
            }
            let ghost pre = buf@;
            let mut i: usize = 0;
            while i < read
                invariant
                    i <= read,
                    read <= chunk@.len(),
                    buf@ == pre + chunk@.take(i as int),
                decreases read - i,
            {
                buf.push(chunk[i]);
                i += 1;
                assert(buf@ == pre + chunk@.take(i as int));
            }
        }
        Ok(buf)
    }
}

/// Decompresses a whole stream. Fails as `Decompressor::new` does on the header, and with
/// `MalformedCode` when a length code is malformed; a stream cut short ends at its last whole
/// token.
pub fn decompress(data: &[u8], dictionary: Option<Vec<u8>>) -> (r: Result<Vec<u8>, TampError>)
    ensures
        match decompress_spec(data@, opt_view(dictionary)) {
            Ok(v) => r is Ok && r->Ok_0@ == v,
            Err(e) => r == Err::<Vec<u8>, TampError>(e),
        },
{
    let source = slice_to_vec(data);
    let mut decompressor = match Decompressor::new(source, dictionary) {
        Ok(d) => d,
        Err(e) => {
            return Err(e);
        },
    };
    decompressor.read_all()
}

/// A decompressor whose output is text.
pub struct TextDecompressor {
    decompressor: Decompressor,
}

/// The text that `bytes` encode, or `InvalidText`.
pub open spec fn text_of(bytes: Seq<u8>) -> Result<Seq<char>, TampError> {
    if valid_utf8(bytes) {
        Ok(decode_utf8(bytes))
    } else {
        Err(TampError::InvalidText)
    }
}

impl TextDecompressor {
    pub closed spec fn inner(&self) -> Decompressor {
        self.decompressor
    }

    /// As `Decompressor::new`.
    pub fn new(source: Vec<u8>, dictionary: Option<Vec<u8>>) -> (r: Result<TextDecompressor, TampError>)
        ensures
            match open_spec(source@, opt_view(dictionary)) {
                Ok((w, l, st)) => r matches Ok(d) && d.inner().wf() && d.inner().window() == w
                    && d.inner().literal() == l && d.inner().state() == st
                    && d.inner().overflow_bytes().len() == 0 && d.inner().pending_bytes()
                    == decode_from(st, w, l).0 && d.inner().pending_error() == decode_from(st, w, l).1,
                Err(e) => r == Err::<TextDecompressor, TampError>(e),
            },
    {
        match Decompressor::new(source, dictionary) {
            Ok(decompressor) => Ok(TextDecompressor { decompressor }),
            Err(e) => Err(e),
        }
    }

    /// Decodes up to `size` bytes, or everything left when `size` is `None`, as text. Fails as
    /// decoding does, or with `InvalidText` when the bytes are not UTF-8.
    pub fn read_to_string(&mut self, size: Option<usize>) -> (r: Result<String, TampError>)
        requires
            old(self).inner().wf(),
        ensures
            ({
                let all = old(self).inner().pending_bytes();
                let err = old(self).inner().pending_error();
                match size {
                    None => match err {
                        Some(e) => r == Err::<String, TampError>(e),
                        None => match text_of(all) {
                            Ok(t) => r matches Ok(s) && s@ == t,
                            Err(e) => r == Err::<String, TampError>(e),
                        },
                    },
                    Some(n) => if err is None || all.len() >= n {
                        let k = if n < all.len() {
                            n as int
                        } else {
                            all.len() as int
                        };
                        match text_of(all.take(k)) {
                            Ok(t) => r matches Ok(s) && s@ == t,
                            Err(e) => r == Err::<String, TampError>(e),
                        }
                    } else {
                        r == Err::<String, TampError>(err->Some_0)
                    },
                }
            }),
    {
        let bytes = match size {
            Some(n) => {
                let mut buf: Vec<u8> = vec![0u8; n];
                let read = match self.decompressor.read_into(buf.as_mut_slice()) {
                    Ok(read) => read,
                    Err(e) => {
                        return Err(e);
                    },
                };
                buf.truncate(read);
                buf
            },
            None => match self.decompressor.read_all() {
                Ok(b) => b,
                Err(e) => {
                    return Err(e);
                },
            },
        };
        match string_from_utf8(bytes) {
            Some(s) => Ok(s),
            None => Err(TampError::InvalidText),
        }
    }
}

/// A stream of the header byte alone decompresses to nothing.
pub proof fn lemma_header_only(h: u8, window: u8, literal: u8)
    requires
        valid_params(window as int, literal as int),
        byte_bits(h) == crate::compressor::header_bits(window as int, literal as int, false),
    ensures
        decompress_spec(seq![h], None) == Ok::<Seq<u8>, TampError>(Seq::empty()),
{
    let data = seq![h];
    lemma_bytes_front(data);
    assert(data.skip(1) == Seq::<u8>::empty());
    assert(bytes_bits(Seq::<u8>::empty()) == Seq::<bool>::empty());
    let bits = bytes_bits(data);
    assert(bits == byte_bits(h));
    assert(!bits[5] && !bits[6] && !bits[7]);
    let st = open_spec(data, None)->Ok_0.2;
    assert(st.rest.len() == 0);
    lemma_token_end(st, open_spec(data, None)->Ok_0.0, open_spec(data, None)->Ok_0.1);
}

/// A stream whose reserved header bit is set is refused.
pub proof fn lemma_reserved_bit(data: Seq<u8>, dict: Option<Seq<u8>>)
    requires
        data.len() > 0,
        data[0] & 0x02 != 0,
    ensures
        decompress_spec(data, dict) == Err::<Seq<u8>, TampError>(TampError::UnsupportedHeader),
{
    lemma_bytes_front(data);
    let b = data[0] as u32;
    assert((b >> 1u32) & 1u32 == 1u32) by (bit_vector)
        requires
            b < 256,
            (b & 0x02) != 0,
    ;
    assert(byte_bits(data[0])[6]);
    assert(bytes_bits(data)[6]);
}

} // verus!
