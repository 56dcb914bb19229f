//! The greedy longest-match compressor and its model.
use std::collections::VecDeque;
use crate::bit_writer::{flush_bits, BitWriter};
use crate::bits::{bytes_bits, field_bits, lemma_bytes_bits_len, pad_to_byte};
use crate::common::{
    min_pattern_size_spec, seed_dictionary, tamp_compute_min_pattern_size,
    tamp_initialize_dictionary,
};
use crate::error::TampError;
use crate::huffman::{code_len, code_value};
use crate::ring_buffer::{index_spec, ring_write, RingBuffer};
use vstd::prelude::*;
use vstd::string::StringSliceAdditionalSpecFns;

verus! {

/// Window and literal sizes that the codec supports.
pub open spec fn valid_params(window: int, literal: int) -> bool {
    8 <= window <= 15 && 5 <= literal <= 8
}

/// Capacity of the window for `window` bits.
pub open spec fn window_size(window: u8) -> nat {
    (1u32 << (window as u32)) as nat
}

/// The eight header bits.
pub open spec fn header_bits(window: int, literal: int, custom: bool) -> Seq<bool> {
    field_bits((window - 8) as u32, 3) + field_bits((literal - 5) as u32, 2) + seq![
        custom,
        false,
        false,
    ]
}

/// A literal token: a 1 flag bit and the byte's low `literal` bits.
pub open spec fn literal_token(c: u8, literal: nat) -> Seq<bool> {
    seq![true] + field_bits(c as u32, literal)
}

/// A pattern token: the code of the length index and the window position in `window` bits.
pub open spec fn pattern_token(index: int, p: int, window: nat) -> Seq<bool> {
    field_bits(code_value(index) as u32, code_len(index)) + field_bits(p as u32, window)
}

/// What an encoder holds between tokens.
pub struct EncoderState {
    /// The window's bytes.
    pub window: Seq<u8>,
    /// The window's insertion position.
    pub pos: int,
    /// Bytes received and not yet encoded.
    pub queue: Seq<u8>,
    /// Every bit of the stream so far, header included.
    pub bits: Seq<bool>,
    /// How many of those bits the output has received.
    pub emitted: nat,
}

/// The longest prefix of `q`, of `size` bytes at most and `pmin` at least, that occurs in the
/// window, with where the search from position 0 finds it first.
pub open spec fn longest_match(win: Seq<u8>, q: Seq<u8>, pmin: int, size: int) -> Option<(int, int)>
    decreases size,
{
    if size < pmin || size < 1 {
        None
    } else {
        match index_spec(win, q.take(size), 0) {
            Some(p) => Some((size, p)),
            None => longest_match(win, q, pmin, size - 1),
        }
    }
}

/// The state once `bits` are appended and every whole byte is emitted.
pub open spec fn with_token(st: EncoderState, window: Seq<u8>, pos: int, queue: Seq<u8>, token: Seq<bool>) -> EncoderState {
    let bits = st.bits + token;
    EncoderState { window, pos, queue, bits, emitted: (bits.len() - bits.len() % 8) as nat }
}

/// One greedy step on a non-empty queue: the longest match as a pattern token, else the front
/// byte as a literal.
pub open spec fn encode_step(st: EncoderState, window: u8, literal: u8) -> Result<EncoderState, TampError> {
    let pmin = min_pattern_size_spec(window as int, literal as int);
    let n = st.window.len() as int;
    match longest_match(st.window, st.queue, pmin, st.queue.len() as int) {
        Some((size, p)) => Ok(
            with_token(
                st,
                ring_write(st.window, st.pos, st.queue.take(size)),
                (st.pos + size) % n,
                st.queue.skip(size),
                pattern_token(size - pmin, p, window as nat),
            ),
        ),
        None => {
            let c = st.queue[0];
            if (c as u32) >> (literal as u32) != 0 {
                Err(TampError::ExcessBits)
            } else {
                Ok(
                    with_token(
                        st,
                        st.window.update(st.pos, c),
                        (st.pos + 1) % n,
                        st.queue.skip(1),
                        literal_token(c, literal as nat),
                    ),
                )
            }
        },
    }
}

/// Receiving one byte: queue it, and take a step once the queue holds a longest pattern.
pub open spec fn push_byte(st: EncoderState, b: u8, window: u8, literal: u8) -> Result<EncoderState, TampError> {
    let pmax = min_pattern_size_spec(window as int, literal as int) + 13;
    let s = EncoderState { queue: st.queue.push(b), ..st };
    if s.queue.len() >= pmax {
        encode_step(s, window, literal)
    } else {
        Ok(s)
    }
}

/// Receiving `data`, byte by byte.
pub open spec fn feed(st: EncoderState, data: Seq<u8>, window: u8, literal: u8) -> Result<EncoderState, TampError>
    decreases data.len(),
{
    if data.len() == 0 {
        Ok(st)
    } else {
        match feed(st, data.drop_last(), window, literal) {
            Ok(s) => push_byte(s, data.last(), window, literal),
            Err(e) => Err(e),
        }
    }
}

/// Encoding every queued byte.
pub open spec fn drain(st: EncoderState, window: u8, literal: u8) -> Result<EncoderState, TampError>
    decreases st.queue.len(),
{
    if st.queue.len() == 0 {
        Ok(st)
    } else {
        match encode_step(st, window, literal) {
            Ok(s) => if s.queue.len() < st.queue.len() {
                drain(s, window, literal)
            } else {
                Ok(s)
            },
            Err(e) => Err(e),
        }
    }
}

/// Closing the stream: the FLUSH marker if asked for and bits are pending, then zero padding
/// to a whole byte, all emitted.
pub open spec fn finish(st: EncoderState, write_token: bool) -> EncoderState {
    let bits = pad_to_byte(
        st.bits + if write_token && st.bits.len() > st.emitted {
            flush_bits()
        } else {
            Seq::<bool>::empty()
        },
    );
    EncoderState { bits, emitted: bits.len(), ..st }
}

/// The state of a fresh encoder.
pub open spec fn initial_state(window: u8, literal: u8, dict: Option<Seq<u8>>) -> EncoderState {
    EncoderState {
        window: match dict {
            Some(d) => d,
            None => seed_dictionary(window_size(window)),
        },
        pos: 0,
        queue: Seq::empty(),
        bits: header_bits(window as int, literal as int, dict is Some),
        emitted: 0,
    }
}

/// The parameters are rejected.
pub open spec fn bad_params(window: u8, literal: u8, dict: Option<Seq<u8>>) -> bool {
    !valid_params(window as int, literal as int) || (dict matches Some(d) && d.len()
        != window_size(window))
}

/// The bits of `data` compressed in one go and closed without a FLUSH marker.
pub open spec fn compress_spec(data: Seq<u8>, window: u8, literal: u8, dict: Option<Seq<u8>>) -> Result<Seq<bool>, TampError> {
    if bad_params(window, literal, dict) {
        Err(TampError::InvalidParameter)
    } else {
        match feed(initial_state(window, literal, dict), data, window, literal) {
            Err(e) => Err(e),
            Ok(s) => match drain(s, window, literal) {
                Err(e) => Err(e),
                Ok(t) => Ok(finish(t, false).bits),
            },
        }
    }
}

pub open spec fn opt_view(d: Option<Vec<u8>>) -> Option<Seq<u8>> {
    match d {
        Some(v) => Some(v@),
        None => None,
    }
}

proof fn lemma_feed_err(st: EncoderState, data: Seq<u8>, k: int, window: u8, literal: u8)
    requires
        0 <= k <= data.len(),
        feed(st, data.take(k), window, literal) is Err,
    ensures
        feed(st, data, window, literal) == feed(st, data.take(k), window, literal),
    decreases data.len(),
{
    if data.len() == k {
        assert(data.take(k) == data);
    } else {
        assert(data.drop_last().take(k) == data.take(k));
        lemma_feed_err(st, data.drop_last(), k, window, literal);
    }
}

pub proof fn lemma_window_size(window: u8)
    requires
        8 <= window <= 15,
    ensures
        256 <= window_size(window) <= 32768,
{
    let w = window as u32;
    assert(256 <= 1u32 << w <= 32768) by (bit_vector)
        requires
            8 <= w <= 15,
    ;
}

proof fn lemma_single_bits()
    ensures
        field_bits(0, 1) == seq![false],
        field_bits(1, 1) == seq![true],
{
    assert((0u32 >> 0u32) & 1u32 == 0u32) by (bit_vector);
    assert((1u32 >> 0u32) & 1u32 == 1u32) by (bit_vector);
    assert(field_bits(0, 1) == seq![false]);
    assert(field_bits(1, 1) == seq![true]);
}

proof fn lemma_literal_bits(c: u8, literal: u8)
    requires
        5 <= literal <= 8,
        (c as u32) >> (literal as u32) == 0,
    ensures
        field_bits(((c as u16) | (1u16 << (literal as u16))) as u32, (literal + 1) as nat)
            == literal_token(c, literal as nat),
{
    let v = ((c as u16) | (1u16 << (literal as u16))) as u32;
    let l = literal as u32;
    let cc = c as u32;
    assert(v == cc | (1u32 << l)) by (bit_vector)
        requires
            v == ((c as u16) | (1u16 << (literal as u16))) as u32,
            l == literal as u32,
            cc == c as u32,
            5 <= literal <= 8,
    ;
    assert forall|j: int| 0 <= j < literal + 1 implies #[trigger] field_bits(v, (literal + 1) as nat)[j]
        == literal_token(c, literal as nat)[j] by {
        let s = (literal as int - j) as u32;
        if j == 0 {
            assert((v >> l) & 1u32 == 1u32) by (bit_vector)
                requires
                    v == cc | (1u32 << l),
                    cc >> l == 0,
                    5 <= l <= 8,
            ;
        } else {
            let t = (literal as int - 1 - (j - 1)) as u32;
            assert((v >> t) & 1u32 == (cc >> t) & 1u32) by (bit_vector)
                requires
                    v == cc | (1u32 << l),
                    t < l,
                    5 <= l <= 8,
            ;
        }
    }
    assert(field_bits(v, (literal + 1) as nat) == literal_token(c, literal as nat));
}

/// Removes the first `n` bytes of `q`.
fn drop_front(q: &mut VecDeque<u8>, n: usize)
    requires
        n <= old(q)@.len(),
    ensures
        final(q)@ == old(q)@.skip(n as int),
{
    let mut k: usize = 0;
    while k < n
        invariant
            k <= n,
            n <= old(q)@.len(),
            q@ == old(q)@.skip(k as int),
        decreases n - k,
    {
        q.pop_front();
        k += 1;
        assert(q@ == old(q)@.skip(k as int));
    }
}

/// A streaming compressor: bytes in, compressed bytes out through its own output buffer.
pub struct Compressor {
    bit_writer: BitWriter,
    window_bits: u8,
    literal_bits: u8,
    min_pattern_size: usize,
    max_pattern_size: usize,
    literal_flag: u16,
    window_buffer: RingBuffer,
    input_buffer: VecDeque<u8>,
}

impl Compressor {
    /// The encoder state.
    pub closed spec fn model(&self) -> EncoderState {
        EncoderState {
            window: self.window_buffer.buffer@,
            pos: self.window_buffer.pos as int,
            queue: self.input_buffer@,
            bits: self.bit_writer.stream(),
            emitted: 8 * self.bit_writer.emitted().len(),
        }
    }

    /// The compressed bytes emitted so far.
    pub closed spec fn output_bytes(&self) -> Seq<u8> {
        self.bit_writer.emitted()
    }

    pub closed spec fn window(&self) -> u8 {
        self.window_bits
    }

    pub closed spec fn literal(&self) -> u8 {
        self.literal_bits
    }

    /// Well-formed, with a queue that may hold a longest pattern.
    pub closed spec fn ready(&self) -> bool {
        &&& valid_params(self.window_bits as int, self.literal_bits as int)
        &&& self.window_buffer.wf()
        &&& self.window_buffer.size == window_size(self.window_bits)
        &&& self.min_pattern_size == min_pattern_size_spec(
            self.window_bits as int,
            self.literal_bits as int,
        )
        &&& self.max_pattern_size == self.min_pattern_size + 13
        &&& self.literal_flag == 1u16 << (self.literal_bits as u16)
        &&& self.input_buffer@.len() <= self.max_pattern_size
        &&& self.bit_writer.wf()
        &&& self.bit_writer.pending().len() <= 8
    }

    /// Parameters valid, window and writer well-formed, the queue shorter than a longest
    /// pattern.
    pub closed spec fn wf(&self) -> bool {
        &&& self.ready()
        &&& self.input_buffer@.len() < self.max_pattern_size
    }

    /// What a well-formed compressor's output holds: the stream's emitted bits.
    pub proof fn lemma_output(&self)
        requires
            self.wf(),
        ensures
            bytes_bits(self.output_bytes()) == self.model().bits.take(self.model().emitted as int),
            self.model().emitted <= self.model().bits.len(),
            self.model().queue.len() < min_pattern_size_spec(self.window() as int, self.literal() as int) + 13,
    {
        lemma_bytes_bits_len(self.bit_writer.emitted());
        assert(self.model().bits.take(self.model().emitted as int) == bytes_bits(self.output_bytes()));
    }

    /// Makes a compressor and writes the header. Fails with `InvalidParameter` when the window
    /// is outside 8..=15, the literal size outside 5..=8, or the dictionary is not exactly as
    /// long as the window.
    pub fn new(window: u8, literal: u8, dictionary: Option<Vec<u8>>) -> (r: Result<
        Compressor,
        TampError,
    >)
        ensures
            r is Err <==> bad_params(window, literal, opt_view(dictionary)),
            r is Err ==> r == Err::<Compressor, TampError>(TampError::InvalidParameter),
            r matches Ok(c) ==> {
                &&& c.wf()
                &&& c.window() == window
                &&& c.literal() == literal
                &&& c.model() == initial_state(window, literal, opt_view(dictionary))
                &&& c.output_bytes() == Seq::<u8>::empty()
            },
    {
        if window < 8 || window > 15 || literal < 5 || literal > 8 {
            return Err(TampError::InvalidParameter);
        }
        proof {
            lemma_window_size(window);
        }
        let dict_size = (1u32 << window as u32) as usize;
        let has_dictionary = dictionary.is_some();
        let dict = match dictionary {
            Some(d) => {
                if d.len() != dict_size {
                    return Err(TampError::InvalidParameter);
                }
                d
            },
            None => {
                let mut d: Vec<u8> = vec![0u8; dict_size];
                tamp_initialize_dictionary(d.as_mut_slice());
                d
            },
        };
        let min_pattern_size = tamp_compute_min_pattern_size(window, literal) as usize;
        let max_pattern_size = min_pattern_size + 13;
        let literal_flag = 1u16 << literal as u16;
        let window_buffer = RingBuffer::new(dict);
        let input_buffer: VecDeque<u8> = VecDeque::with_capacity(max_pattern_size);
        let mut bit_writer = BitWriter::new();
        proof {
            lemma_single_bits();
        }
        bit_writer.write((window - 8) as u32, 3, false);
        bit_writer.write((literal - 5) as u32, 2, false);
        bit_writer.write(if has_dictionary { 1 } else { 0 }, 1, false);
        bit_writer.write(0, 1, false);
        bit_writer.write(0, 1, false);
        let c = Compressor {
            bit_writer,
            window_bits: window,
            literal_bits: literal,
            min_pattern_size,
            max_pattern_size,
            literal_flag,
            window_buffer,
            input_buffer,
        };
        proof {
            let h = header_bits(window as int, literal as int, has_dictionary);
            assert(c.model().bits == h);
        }
        Ok(c)
    }

    /// The compressed bytes emitted so far.
    pub fn output(&self) -> (r: &[u8])
        ensures
            r@ == self.output_bytes(),
    {
        self.bit_writer.output()
    }

    /// Encodes one token from the non-empty queue: the longest match in the window, else the
    /// front byte as a literal. Returns the number of bytes emitted.
    fn compress_input_buffer_single(&mut self) -> (r: Result<usize, TampError>)
        requires
            old(self).ready(),
            old(self).model().queue.len() > 0,
        ensures
            final(self).window() == old(self).window(),
            final(self).literal() == old(self).literal(),
            match encode_step(old(self).model(), old(self).window(), old(self).literal()) {
                Ok(m) => {
                    &&& r is Ok
                    &&& final(self).wf()
                    &&& final(self).model() == m
                    &&& final(self).output_bytes().len() == old(self).output_bytes().len() + r->Ok_0
                    &&& final(self).output_bytes().take(old(self).output_bytes().len() as int)
                        == old(self).output_bytes()
                    &&& m.queue.len() < old(self).model().queue.len()
                },
                Err(e) => r == Err::<usize, TampError>(e),
            },
    {
        let ghost st = self.model();
        let n = self.input_buffer.len();
        let mut target: Vec<u8> = Vec::new();
        let mut i: usize = 0;
        while i < n
            invariant
                n == self.input_buffer@.len(),
                i <= n,
                target@ == self.input_buffer@.take(i as int),
            decreases n - i,
        {
            target.push(self.input_buffer[i]);
            i += 1;
            assert(target@ == self.input_buffer@.take(i as int));
        }
        assert(target@ == st.queue);
        let pmin = self.min_pattern_size;
        let mut best_match_size: usize = 0;
        let mut best_match_pos: usize = 0;
        let mut best_pattern: Vec<u8> = Vec::new();
        let mut size: usize = n;
        while size >= pmin
            invariant_except_break
                best_match_size == 0,
                pmin >= 2,
                size <= n,
                n == target@.len(),
                self.window_buffer.wf(),
                longest_match(st.window, st.queue, pmin as int, n as int) == longest_match(
                    st.window,
                    st.queue,
                    pmin as int,
                    size as int,
                ),
            invariant
                st.window == self.window_buffer.buffer@,
                target@ == st.queue,
                pmin == min_pattern_size_spec(self.window_bits as int, self.literal_bits as int),
                self.window_buffer.wf(),
            ensures
                best_match_size <= n,
                best_match_size > 0 ==> best_match_size >= pmin,
                best_match_size == 0 ==> longest_match(st.window, st.queue, pmin as int, n as int)
                    is None,
                best_match_size > 0 ==> longest_match(st.window, st.queue, pmin as int, n as int)
                    == Some((best_match_size as int, best_match_pos as int)) && best_pattern@
                    == st.queue.take(best_match_size as int) && best_match_pos < self.window_buffer.size,
            decreases size,
        {
            let mut pattern: Vec<u8> = Vec::new();
            let mut j: usize = 0;
            while j < size
                invariant
                    size <= n,
                    n == target@.len(),
                    j <= size,
                    pattern@ == target@.take(j as int),
                decreases size - j,
            {
                pattern.push(target[j]);
                j += 1;
                assert(pattern@ == target@.take(j as int));
            }
            match self.window_buffer.index(pattern.as_slice(), 0) {
                Some(idx) => {
                    assert(pattern@ == st.queue.take(size as int));
                    assert(size >= pmin);
                    assert(longest_match(st.window, st.queue, pmin as int, size as int) == Some(
                        (size as int, idx as int),
                    ));
                    best_match_size = size;
                    best_match_pos = idx;
                    best_pattern = pattern;
                    break;
                },
                None => {},
            }
            size -= 1;
        }
        if best_match_size >= self.min_pattern_size {
            let match_size = best_match_size;
            let r1 = self.bit_writer.write_huffman(match_size - self.min_pattern_size);
            let r2 = self.bit_writer.write(best_match_pos as u32, self.window_bits, true);
            self.window_buffer.write_bytes(best_pattern.as_slice());
            drop_front(&mut self.input_buffer, match_size);
            proof {
                lemma_bytes_bits_len(self.bit_writer.emitted());
                let m = encode_step(st, self.window_bits, self.literal_bits).unwrap();
                assert(self.model().bits == m.bits);
                vstd::arithmetic::div_mod::lemma_fundamental_div_mod_converse_mod(
                    m.bits.len() as int,
                    8,
                    self.bit_writer.emitted().len() as int,
                    self.bit_writer.pending().len() as int,
                );
                assert(self.model() == m);
            }
            Ok(r1 + r2)
        } else {
            let c = self.input_buffer.pop_front().unwrap();
            if (c as u32) >> self.literal_bits as u32 != 0 {
                return Err(TampError::ExcessBits);
            }
            proof {
                lemma_literal_bits(c, self.literal_bits);
                assert(self.literal_flag == 1u16 << (self.literal_bits as u16));
            }
            let ghost s0 = self.bit_writer.stream();
            let r = self.bit_writer.write(
                (c as u16 | self.literal_flag) as u32,
                self.literal_bits + 1,
                true,
            );
            assert(self.bit_writer.stream() == s0 + literal_token(c, self.literal_bits as nat));
            self.window_buffer.write_byte(c);
            proof {
                lemma_bytes_bits_len(self.bit_writer.emitted());
                let m = encode_step(st, self.window_bits, self.literal_bits).unwrap();
                assert(self.model().bits == m.bits);
                vstd::arithmetic::div_mod::lemma_fundamental_div_mod_converse_mod(
                    m.bits.len() as int,
                    8,
                    self.bit_writer.emitted().len() as int,
                    self.bit_writer.pending().len() as int,
                );
                assert(self.model() == m);
            }
            Ok(r)
        }
    }

    /// Queues `data`, encoding a token whenever the queue holds a longest pattern. Returns the
    /// number of compressed bytes emitted, or `ExcessBits` when a literal does not fit.
    pub fn write(&mut self, data: &[u8]) -> (r: Result<usize, TampError>)
        requires
            old(self).wf(),
        ensures
            final(self).window() == old(self).window(),
            final(self).literal() == old(self).literal(),
            match feed(old(self).model(), data@, old(self).window(), old(self).literal()) {
                Ok(m) => {
                    &&& r is Ok
                    &&& final(self).wf()
                    &&& final(self).model() == m
                    &&& final(self).output_bytes().len() == old(self).output_bytes().len() + r->Ok_0
                    &&& final(self).output_bytes().take(old(self).output_bytes().len() as int)
                        == old(self).output_bytes()
                },
                Err(e) => r == Err::<usize, TampError>(e),
            },
    {
        let start = self.bit_writer.output().len();
        let n = data.len();
        let mut i: usize = 0;
        assert(data@.take(0) == Seq::<u8>::empty());
        while i < n
            invariant
                self.wf(),
                n == data@.len(),
                i <= n,
                self.window() == old(self).window(),
                self.literal() == old(self).literal(),
                start == old(self).output_bytes().len(),
                feed(old(self).model(), data@.take(i as int), self.window(), self.literal()) == Ok::<
                    EncoderState,
                    TampError,
                >(self.model()),
                self.output_bytes().len() >= start,
                self.output_bytes().take(start as int) == old(self).output_bytes(),
            decreases n - i,
        {
            proof {
                assert(data@.take(i + 1).drop_last() == data@.take(i as int));
                assert(data@.take(i + 1).last() == data@[i as int]);
            }
            let ghost pre = self.output_bytes();
            self.input_buffer.push_back(data[i]);
            if self.input_buffer.len() == self.max_pattern_size {
                match self.compress_input_buffer_single() {
                    Ok(_) => {},
                    Err(e) => {
                        proof {
                            lemma_feed_err(old(self).model(), data@, i + 1, self.window(), self.literal());
                        }
                        return Err(e);
                    },
                }
            }
            proof {
                assert(self.output_bytes().take(start as int) == pre.take(start as int));
            }
            i += 1;
        }
        assert(data@.take(n as int) == data@);
        Ok(self.bit_writer.output().len() - start)
    }

    /// Encodes every queued byte, then writes the FLUSH marker if `write_token` is set and bits
    /// are pending, and pads to a whole byte. Returns the number of compressed bytes emitted.
    pub fn flush(&mut self, write_token: bool) -> (r: Result<usize, TampError>)
        requires
            old(self).wf(),
        ensures
            final(self).window() == old(self).window(),
            final(self).literal() == old(self).literal(),
            match drain(old(self).model(), old(self).window(), old(self).literal()) {
                Ok(m) => {
                    &&& r is Ok
                    &&& final(self).wf()
                    &&& final(self).model() == finish(m, write_token)
                    &&& final(self).output_bytes().len() == old(self).output_bytes().len() + r->Ok_0
                    &&& final(self).output_bytes().take(old(self).output_bytes().len() as int)
                        == old(self).output_bytes()
                },
                Err(e) => r == Err::<usize, TampError>(e),
            },
    {
        let start = self.bit_writer.output().len();
        while self.input_buffer.len() > 0
            invariant
                self.wf(),
                self.window() == old(self).window(),
                self.literal() == old(self).literal(),
                start == old(self).output_bytes().len(),
                drain(old(self).model(), self.window(), self.literal()) == drain(
                    self.model(),
                    self.window(),
                    self.literal(),
                ),
                self.output_bytes().len() >= start,
                self.output_bytes().take(start as int) == old(self).output_bytes(),
            decreases self.model().queue.len(),
        {
            let ghost pre = self.output_bytes();
            match self.compress_input_buffer_single() {
                Ok(_) => {},
                Err(e) => {
                    return Err(e);
                },
            }
            proof {
                assert(self.output_bytes().take(start as int) == pre.take(start as int));
            }
        }
        let ghost m = self.model();
        proof {
            lemma_bytes_bits_len(self.bit_writer.emitted());
        }
        self.bit_writer.flush(write_token);
        proof {
            lemma_bytes_bits_len(self.bit_writer.emitted());
            assert(self.bit_writer.stream() == bytes_bits(self.bit_writer.emitted()));
            assert(self.model() == finish(m, write_token));
            assert(self.output_bytes().take(start as int) == old(self).output_bytes());
        }
        Ok(self.bit_writer.output().len() - start)
    }

    /// Flushes without a FLUSH marker and hands back every compressed byte.
    pub fn close(self) -> (r: Result<Vec<u8>, TampError>)
        requires
            self.wf(),
        ensures
            match drain(self.model(), self.window(), self.literal()) {
                Ok(m) => r is Ok && bytes_bits(r->Ok_0@) == finish(m, false).bits,
                Err(e) => r == Err::<Vec<u8>, TampError>(e),
            },
    {
        let mut c = self;
        match c.flush(false) {
            Ok(_) => {},
            Err(e) => {
                return Err(e);
            },
        }
        proof {
            c.lemma_output();
        }
        Ok(c.bit_writer.into_output())
    }
}

/// A compressor fed with text: the bytes of its UTF-8 encoding.
pub struct TextCompressor {
    compressor: Compressor,
}

impl TextCompressor {
    pub closed spec fn inner(&self) -> Compressor {
        self.compressor
    }

    /// As `Compressor::new`.
    pub fn new(window: u8, literal: u8, dictionary: Option<Vec<u8>>) -> (r: Result<
        TextCompressor,
        TampError,
    >)
        ensures
            r is Err <==> bad_params(window, literal, opt_view(dictionary)),
            r is Err ==> r == Err::<TextCompressor, TampError>(TampError::InvalidParameter),
            r matches Ok(c) ==> {
                &&& c.inner().wf()
                &&& c.inner().window() == window
                &&& c.inner().literal() == literal
                &&& c.inner().model() == initial_state(window, literal, opt_view(dictionary))
                &&& c.inner().output_bytes() == Seq::<u8>::empty()
            },
    {
        match Compressor::new(window, literal, dictionary) {
            Ok(compressor) => Ok(TextCompressor { compressor }),
            Err(e) => Err(e),
        }
    }

    /// Writes the UTF-8 bytes of `data`, as `Compressor::write`.
    pub fn write(&mut self, data: &str) -> (r: Result<usize, TampError>)
        requires
            old(self).inner().wf(),
        ensures
            final(self).inner().window() == old(self).inner().window(),
            final(self).inner().literal() == old(self).inner().literal(),
            match feed(
                old(self).inner().model(),
                data.spec_bytes(),
                old(self).inner().window(),
                old(self).inner().literal(),
            ) {
                Ok(m) => {
                    &&& r is Ok
                    &&& final(self).inner().wf()
                    &&& final(self).inner().model() == m
                    &&& final(self).inner().output_bytes().len() == old(self).inner().output_bytes().len() + r->Ok_0
                    &&& final(self).inner().output_bytes().take(
                        old(self).inner().output_bytes().len() as int,
                    ) == old(self).inner().output_bytes()
                },
                Err(e) => r == Err::<usize, TampError>(e),
            },
    {
        self.compressor.write(data.as_bytes())
    }

    /// As `Compressor::flush`.
    pub fn flush(&mut self, write_token: bool) -> (r: Result<usize, TampError>)
        requires
            old(self).inner().wf(),
        ensures
            final(self).inner().window() == old(self).inner().window(),
            final(self).inner().literal() == old(self).inner().literal(),
            match drain(old(self).inner().model(), old(self).inner().window(), old(self).inner().literal()) {
                Ok(m) => {
                    &&& r is Ok
                    &&& final(self).inner().wf()
                    &&& final(self).inner().model() == finish(m, write_token)
                    &&& final(self).inner().output_bytes().len() == old(self).inner().output_bytes().len() + r->Ok_0
                    &&& final(self).inner().output_bytes().take(
                        old(self).inner().output_bytes().len() as int,
                    ) == old(self).inner().output_bytes()
                },
                Err(e) => r == Err::<usize, TampError>(e),
            },
    {
        self.compressor.flush(write_token)
    }

    /// As `Compressor::close`.
    pub fn close(self) -> (r: Result<Vec<u8>, TampError>)
        requires
            self.inner().wf(),
        ensures
            match drain(self.inner().model(), self.inner().window(), self.inner().literal()) {
                Ok(m) => r is Ok && bytes_bits(r->Ok_0@) == finish(m, false).bits,
                Err(e) => r == Err::<Vec<u8>, TampError>(e),
            },
    {
        self.compressor.close()
    }
}

/// Input to `compress`: bytes, or text taken as its UTF-8 bytes.
pub enum CompressInput<'a> {
    Bytes(&'a [u8]),
    Str(&'a str),
}

/// The bytes that an input stands for.
pub open spec fn input_bytes(data: CompressInput) -> Seq<u8> {
    match data {
        CompressInput::Bytes(b) => b@,
        CompressInput::Str(s) => s.spec_bytes(),
    }
}

/// Compresses `data` in one go and closes the stream without a FLUSH marker.
pub fn compress(data: CompressInput, window: u8, literal: u8, dictionary: Option<Vec<u8>>) -> (r:
    Result<Vec<u8>, TampError>)
    ensures
        match compress_spec(input_bytes(data), window, literal, opt_view(dictionary)) {
            Ok(bits) => r is Ok && bytes_bits(r->Ok_0@) == bits,
            Err(e) => r == Err::<Vec<u8>, TampError>(e),
        },
{
    let bytes: &[u8] = match data {
        CompressInput::Bytes(b) => b,
        CompressInput::Str(s) => s.as_bytes(),
    };
    let mut compressor = match Compressor::new(window, literal, dictionary) {
        Ok(c) => c,
        Err(e) => {
            return Err(e);
        },
    };
    match compressor.write(bytes) {
        Ok(_) => {},
        Err(e) => {
            return Err(e);
        },
    }
    compressor.close()
}

/// With no input, a compressed stream is the header alone: eight bits, one byte.
pub proof fn lemma_empty_input(window: u8, literal: u8)
    requires
        valid_params(window as int, literal as int),
    ensures
        compress_spec(Seq::empty(), window, literal, None) == Ok::<Seq<bool>, TampError>(
            header_bits(window as int, literal as int, false),
        ),
        header_bits(window as int, literal as int, false).len() == 8,
{
    let st = initial_state(window, literal, None);
    assert(feed(st, Seq::empty(), window, literal) == Ok::<EncoderState, TampError>(st));
    assert(drain(st, window, literal) == Ok::<EncoderState, TampError>(st));
    let h = header_bits(window as int, literal as int, false);
    assert(h.len() == 8);
    assert(h + Seq::<bool>::empty() == h);
    assert(pad_to_byte(h) == h);
}

/// A single byte with bits set above the literal size cannot be compressed.
pub proof fn lemma_excess_bits(c: u8, window: u8, literal: u8)
    requires
        valid_params(window as int, literal as int),
        c as u32 >= 1u32 << (literal as u32),
    ensures
        compress_spec(seq![c], window, literal, None) == Err::<Seq<bool>, TampError>(
            TampError::ExcessBits,
        ),
{
    let st = initial_state(window, literal, None);
    let data = seq![c];
    assert(data.drop_last() == Seq::<u8>::empty());
    assert(feed(st, data.drop_last(), window, literal) == Ok::<EncoderState, TampError>(st));
    let s = EncoderState { queue: st.queue.push(c), ..st };
    assert(feed(st, data, window, literal) == Ok::<EncoderState, TampError>(s));
    assert(s.queue[0] == c);
    let cc = c as u32;
    let l = literal as u32;
    assert(cc >> l != 0) by (bit_vector)
        requires
            cc >= 1u32 << l,
            5 <= l <= 8,
    ;
    assert(longest_match(s.window, s.queue, min_pattern_size_spec(window as int, literal as int), 1) is None);
    assert(encode_step(s, window, literal) == Err::<EncoderState, TampError>(TampError::ExcessBits));
}

} // verus!
