//! The sliding window.
use vstd::arithmetic::div_mod::{lemma_fundamental_div_mod_converse_mod, lemma_small_mod};
use vstd::prelude::*;

verus! {

/// The window after writing `data` into `buf` from position `pos` onwards, wrapping around.
pub open spec fn ring_write(buf: Seq<u8>, pos: int, data: Seq<u8>) -> Seq<u8>
    decreases data.len(),
{
    if data.len() == 0 {
        buf
    } else {
        ring_write(buf, pos, data.drop_last()).update(
            (pos + data.len() - 1) % (buf.len() as int),
            data.last(),
        )
    }
}

/// `pat` occurs in `buf` at `i`, read circularly.
pub open spec fn matches_at(buf: Seq<u8>, pat: Seq<u8>, i: int) -> bool {
    forall|j: int| 0 <= j < pat.len() ==> #[trigger] buf[(i + j) % (buf.len() as int)] == pat[j]
}

/// The first match among the candidate starts `start + c, start + c + 1, ...` (taken modulo
/// the length), of which there are `buf.len() - pat.len() + 1` in all.
pub open spec fn scan(buf: Seq<u8>, pat: Seq<u8>, start: int, c: int) -> Option<int>
    decreases buf.len() - pat.len() + 1 - c,
{
    if c < 0 || c > buf.len() - pat.len() {
        None
    } else if matches_at(buf, pat, (start + c) % (buf.len() as int)) {
        Some((start + c) % (buf.len() as int))
    } else {
        scan(buf, pat, start, c + 1)
    }
}

/// Where a search for `pat` that begins at `start` finds it first, if anywhere.
pub open spec fn index_spec(buf: Seq<u8>, pat: Seq<u8>, start: int) -> Option<int> {
    if pat.len() == 0 || pat.len() > buf.len() {
        None
    } else {
        scan(buf, pat, start, 0)
    }
}

proof fn lemma_wrap(x: int, n: int)
    requires
        0 <= x < 2 * n,
    ensures
        x % n == if x < n { x } else { x - n },
{
    if x < n {
        lemma_small_mod(x as nat, n as nat);
    } else {
        lemma_fundamental_div_mod_converse_mod(x, n, 1, x - n);
    }
}

proof fn lemma_mod_succ(x: int, n: int)
    requires
        0 <= x,
        0 < n,
    ensures
        (x % n + 1) % n == (x + 1) % n,
{
    vstd::arithmetic::div_mod::lemma_fundamental_div_mod(x, n);
    let q = x / n;
    let r = x % n;
    vstd::arithmetic::div_mod::lemma_mod_pos_bound(x, n);
    if r + 1 < n {
        lemma_small_mod((r + 1) as nat, n as nat);
        assert(x + 1 == q * n + (r + 1)) by (nonlinear_arith)
            requires
                x == n * q + r,
        ;
        lemma_fundamental_div_mod_converse_mod(x + 1, n, q, r + 1);
    } else {
        lemma_fundamental_div_mod_converse_mod(r + 1, n, 1, 0);
        assert(x + 1 == (q + 1) * n + 0) by (nonlinear_arith)
            requires
                x == n * q + r,
                r + 1 == n,
        ;
        lemma_fundamental_div_mod_converse_mod(x + 1, n, q + 1, 0);
    }
}

/// A fixed-capacity circular byte buffer: the sliding window of the codec.
pub struct RingBuffer {
    pub buffer: Vec<u8>,
    pub size: usize,
    pub pos: usize,
}

impl RingBuffer {
    /// The capacity matches the storage and the insertion position lies within it.
    pub open spec fn wf(&self) -> bool {
        &&& self.size == self.buffer@.len()
        &&& self.size > 0
        &&& self.pos < self.size
    }

    /// The insertion position.
    pub open spec fn position(&self) -> int {
        self.pos as int
    }

    /// Makes a window of `buffer`'s contents, with the insertion position at 0.
    pub fn new(buffer: Vec<u8>) -> (r: RingBuffer)
        requires
            buffer@.len() > 0,
        ensures
            r.wf(),
            r.buffer@ == buffer@,
            r.position() == 0,
    {
        let size = buffer.len();
        RingBuffer { buffer, size, pos: 0 }
    }

    /// Stores `byte` at the insertion position and advances it.
    pub fn write_byte(&mut self, byte: u8)
        requires
            old(self).wf(),
        ensures
            final(self).wf(),
            final(self).size == old(self).size,
            final(self).buffer@ == old(self).buffer@.update(old(self).position(), byte),
            final(self).position() == (old(self).position() + 1) % (old(self).size as int),
    {
        self.buffer.set(self.pos, byte);
        proof {
            lemma_wrap(self.pos + 1, self.size as int);
        }
        self.pos = if self.pos + 1 == self.size {
            0
        } else {
            self.pos + 1
        };
    }

    /// Writes each byte of `data` in order.
    pub fn write_bytes(&mut self, data: &[u8])
        requires
            old(self).wf(),
        ensures
            final(self).wf(),
            final(self).size == old(self).size,
            final(self).buffer@ == ring_write(old(self).buffer@, old(self).position(), data@),
            final(self).position() == (old(self).position() + data@.len()) % (
            old(self).size as int),
    {
        let n = data.len();
        let mut i: usize = 0;
        proof {
            lemma_small_mod(self.pos as nat, self.size as nat);
        }
        while i < n
            invariant
                self.wf(),
                old(self).wf(),
                n == data@.len(),
                i <= n,
                self.size == old(self).size,
                self.buffer@ == ring_write(old(self).buffer@, old(self).position(), data@.take(i as int)),
                self.position() == (old(self).position() + i) % (self.size as int),
            decreases n - i,
        {
            proof {
                assert(data@.take(i + 1).drop_last() == data@.take(i as int));
                lemma_mod_succ(old(self).position() + i, self.size as int);
            }
            self.write_byte(data[i]);
            proof {
                let p0 = old(self).position();
                let d = data@.take(i + 1);
                assert(d.last() == data@[i as int]);
                assert(d.drop_last() == data@.take(i as int));
                assert(d.len() == i + 1);
                assert(ring_write(old(self).buffer@, p0, d) == ring_write(
                    old(self).buffer@,
                    p0,
                    d.drop_last(),
                ).update((p0 + d.len() - 1) % (old(self).buffer@.len() as int), d.last()));
                assert(ring_write(old(self).buffer@, p0, data@.take(i + 1)) == ring_write(
                    old(self).buffer@,
                    p0,
                    data@.take(i as int),
                ).update((p0 + i) % (self.size as int), data@[i as int]));
            }
            i += 1;
        }
        assert(data@.take(n as int) == data@);
    }

    /// The first position, searching circularly from `start`, at which `pattern` occurs.
    pub fn index(&self, pattern: &[u8], start: usize) -> (r: Option<usize>)
        requires
            self.wf(),
            start < self.size,
        ensures
            match r {
                Some(i) => i < self.size && index_spec(self.buffer@, pattern@, start as int) == Some(
                    i as int,
                ),
                None => index_spec(self.buffer@, pattern@, start as int) is None,
            },
    {
        if pattern.len() == 0 || pattern.len() > self.size {
            return None;
        }
        let size = self.size;
        let plen = pattern.len();
        let mut i: usize = start;
        let mut checked: usize = 0;
        proof {
            lemma_wrap(start as int, size as int);
        }
        while checked <= size - plen
            invariant
                self.wf(),
                size == self.size,
                plen == pattern@.len(),
                0 < plen <= size,
                start < size,
                checked <= size - plen + 1,
                i < size,
                i == (start + checked) % (size as int),
                index_spec(self.buffer@, pattern@, start as int) == scan(
                    self.buffer@,
                    pattern@,
                    start as int,
                    checked as int,
                ),
            decreases size - plen + 1 - checked,
        {
            let mut found = true;
            let mut j: usize = 0;
            while j < plen
                invariant
                    self.wf(),
                    size == self.size,
                    plen == pattern@.len(),
                    i < size,
                    j <= plen,
                    plen <= size,
                    found ==> forall|k: int|
                        0 <= k < j ==> #[trigger] self.buffer@[(i + k) % (self.buffer@.len() as int)]
                            == pattern@[k],
                    !found ==> !matches_at(self.buffer@, pattern@, i as int),
                ensures
                    found ==> j == plen,
                decreases plen - j,
            {
                proof {
                    lemma_wrap(i + j, size as int);
                }
                let idx = if j < size - i {
                    i + j
                } else {
                    j - (size - i)
                };
                if self.buffer[idx] != pattern[j] {
                    found = false;
                    break;
                }
                j += 1;
            }
            if found {
                assert(matches_at(self.buffer@, pattern@, i as int));
                return Some(i);
            }
            proof {
                lemma_wrap(i + 1, size as int);
                lemma_wrap(start + checked, size as int);
                lemma_wrap(start + checked + 1, size as int);
            }
            i = if i + 1 == size {
                0
            } else {
                i + 1
            };
            checked += 1;
        }
        None
    }
}

/// A byte just written is found by a one-byte search that starts where it was written.
pub proof fn lemma_written_byte_found(buf: Seq<u8>, pos: int, b: u8)
    requires
        0 <= pos < buf.len(),
    ensures
        index_spec(buf.update(pos, b), seq![b], pos) == Some(pos),
{
    let nb = buf.update(pos, b);
    lemma_small_mod(pos as nat, buf.len() as nat);
    assert(matches_at(nb, seq![b], pos)) by {
        assert forall|j: int| 0 <= j < 1 implies #[trigger] nb[(pos + j) % (nb.len() as int)]
            == seq![b][j] by {
            assert(j == 0);
        }
    }
}

} // verus!
