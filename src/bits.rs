//! Bit sequences: the model of the wire format's bit-level packing, and the lemmas that tie
//! 32-bit staging words to it.
use vstd::prelude::*;

verus! {

/// The low `k` bits of `v`, most significant first.
pub open spec fn field_bits(v: u32, k: nat) -> Seq<bool> {
    Seq::new(k, |j: int| (v >> ((k - 1 - j) as u32)) & 1u32 == 1u32)
}

/// The top `n` bits of a 32-bit staging word, most significant first.
pub open spec fn top_bits(buf: u32, n: nat) -> Seq<bool> {
    Seq::new(n, |j: int| (buf >> ((31 - j) as u32)) & 1u32 == 1u32)
}

/// The eight bits of a byte, most significant first.
pub open spec fn byte_bits(b: u8) -> Seq<bool> {
    field_bits(b as u32, 8)
}

/// The bits of a byte sequence, each byte most significant bit first.
pub open spec fn bytes_bits(s: Seq<u8>) -> Seq<bool>
    decreases s.len(),
{
    if s.len() == 0 {
        Seq::empty()
    } else {
        bytes_bits(s.drop_last()) + byte_bits(s.last())
    }
}

/// The number that a bit sequence spells, most significant bit first.
pub open spec fn bits_value(s: Seq<bool>) -> nat
    decreases s.len(),
{
    if s.len() == 0 {
        0
    } else {
        2 * bits_value(s.drop_last()) + if s.last() {
            1nat
        } else {
            0nat
        }
    }
}

/// `bits` followed by zero bits up to the next multiple of eight.
pub open spec fn pad_to_byte(bits: Seq<bool>) -> Seq<bool> {
    bits + Seq::new(((8 - bits.len() % 8) % 8) as nat, |i: int| false)
}

/// Every bit of `buf` below the top `n` is zero.
pub open spec fn clean(buf: u32, n: nat) -> bool {
    n <= 32 && buf & (0xffff_ffffu32 >> (n as u32)) == 0
}

pub proof fn lemma_bytes_bits_len(s: Seq<u8>)
    ensures
        bytes_bits(s).len() == 8 * s.len(),
    decreases s.len(),
{
    if s.len() > 0 {
        lemma_bytes_bits_len(s.drop_last());
    }
}

pub proof fn lemma_bytes_bits_push(s: Seq<u8>, b: u8)
    ensures
        bytes_bits(s.push(b)) == bytes_bits(s) + byte_bits(b),
{
    assert(s.push(b).drop_last() == s);
}

pub proof fn lemma_bytes_bits_concat(s: Seq<u8>, t: Seq<u8>)
    ensures
        bytes_bits(s + t) == bytes_bits(s) + bytes_bits(t),
    decreases t.len(),
{
    if t.len() == 0 {
        assert(s + t == s);
        assert(bytes_bits(s) + bytes_bits(t) == bytes_bits(s));
    } else {
        lemma_bytes_bits_concat(s, t.drop_last());
        assert((s + t).drop_last() == s + t.drop_last());
        assert(bytes_bits(s) + bytes_bits(t.drop_last()) + byte_bits(t.last()) == bytes_bits(s) + (
        bytes_bits(t.drop_last()) + byte_bits(t.last())));
    }
}

/// Bits of the staging word after a field is OR-ed in below the top `n`.
pub proof fn lemma_or_bit(buf: u32, n: u32, v: u32, k: u32, i: u32)
    requires
        1 <= k,
        n + k <= 32,
        v >> k == 0,
        buf & (0xffff_ffffu32 >> n) == 0,
        i < 32,
    ensures
        ((buf | (v << ((32 - n - k) as u32))) >> ((31 - i) as u32)) & 1u32 == if i < n {
            (buf >> ((31 - i) as u32)) & 1u32
        } else if i < n + k {
            (v >> ((k - 1 - (i - n)) as u32)) & 1u32
        } else {
            0u32
        },
{
    assert(((buf | (v << ((32 - n - k) as u32))) >> ((31 - i) as u32)) & 1u32 == if i < n {
        (buf >> ((31 - i) as u32)) & 1u32
    } else if i < n + k {
        (v >> ((k - 1 - (i - n)) as u32)) & 1u32
    } else {
        0u32
    }) by (bit_vector)
        requires
            1 <= k,
            n + k <= 32,
            v >> k == 0,
            buf & (0xffff_ffffu32 >> n) == 0,
            i < 32,
    ;
}

pub proof fn lemma_or_clean(buf: u32, n: u32, v: u32, k: u32)
    requires
        1 <= k,
        n + k <= 32,
        v >> k == 0,
        buf & (0xffff_ffffu32 >> n) == 0,
    ensures
        (buf | (v << ((32 - n - k) as u32))) & (0xffff_ffffu32 >> ((n + k) as u32)) == 0,
{
    assert((buf | (v << ((32 - n - k) as u32))) & (0xffff_ffffu32 >> ((n + k) as u32)) == 0)
        by (bit_vector)
        requires
            1 <= k,
            n + k <= 32,
            v >> k == 0,
            buf & (0xffff_ffffu32 >> n) == 0,
    ;
}

/// Appending a `k`-bit field to a clean staging word holding `n` bits.
pub proof fn lemma_append_field(buf: u32, n: nat, v: u32, k: nat)
    requires
        1 <= k,
        n + k <= 32,
        v >> (k as u32) == 0,
        clean(buf, n),
    ensures
        top_bits(buf | (v << ((32 - n - k) as u32)), n + k) == top_bits(buf, n) + field_bits(v, k),
        clean(buf | (v << ((32 - n - k) as u32)), n + k),
{
    let nb = buf | (v << ((32 - n - k) as u32));
    assert forall|i: int| 0 <= i < n + k implies #[trigger] top_bits(nb, n + k)[i] == (top_bits(
        buf,
        n,
    ) + field_bits(v, k))[i] by {
        lemma_or_bit(buf, n as u32, v, k as u32, i as u32);
    }
    lemma_or_clean(buf, n as u32, v, k as u32);
    assert(top_bits(nb, n + k) == top_bits(buf, n) + field_bits(v, k));
}

/// Masking to the low `k` bits keeps the field's bits.
pub proof fn lemma_mask_field(v: u32, k: nat)
    requires
        1 <= k <= 31,
    ensures
        (v & (((1u32 << (k as u32)) - 1) as u32)) >> (k as u32) == 0,
        field_bits(v & (((1u32 << (k as u32)) - 1) as u32), k) == field_bits(v, k),
{
    let kk = k as u32;
    let m = v & (((1u32 << kk) - 1) as u32);
    assert(m >> kk == 0) by (bit_vector)
        requires
            m == v & (((1u32 << kk) - 1) as u32),
            1 <= kk <= 31,
    ;
    assert forall|j: int| 0 <= j < k implies #[trigger] field_bits(m, k)[j] == field_bits(v, k)[j] by {
        let s = (k - 1 - j) as u32;
        assert((m >> s) & 1u32 == (v >> s) & 1u32) by (bit_vector)
            requires
                m == v & (((1u32 << kk) - 1) as u32),
                1 <= kk <= 31,
                s < kk,
        ;
    }
    assert(field_bits(m, k) == field_bits(v, k));
}

/// Taking the top byte off a clean staging word holding at least eight bits.
pub proof fn lemma_take_byte(buf: u32, n: nat)
    requires
        8 <= n,
        clean(buf, n),
    ensures
        top_bits(buf, n) == byte_bits((buf >> 24u32) as u8) + top_bits(
            ((buf & 0xff_ffffu32) << 8u32) as u32,
            (n - 8) as nat,
        ),
        clean(((buf & 0xff_ffffu32) << 8u32) as u32, (n - 8) as nat),
{
    let nb = ((buf & 0xff_ffffu32) << 8u32) as u32;
    let b = (buf >> 24u32) as u8;
    assert(b as u32 == buf >> 24u32) by (bit_vector)
        requires
            b == (buf >> 24u32) as u8,
    ;
    assert forall|i: int| 0 <= i < n implies #[trigger] top_bits(buf, n)[i] == (byte_bits(b)
        + top_bits(nb, (n - 8) as nat))[i] by {
        let ii = i as u32;
        if i < 8 {
            let bb = b as u32;
            assert((buf >> ((31 - ii) as u32)) & 1u32 == (bb >> ((7 - ii) as u32)) & 1u32)
                by (bit_vector)
                requires
                    bb == buf >> 24u32,
                    ii < 8,
            ;
        } else {
            assert((buf >> ((31 - ii) as u32)) & 1u32 == (nb >> ((31 - (ii - 8)) as u32)) & 1u32)
                by (bit_vector)
                requires
                    nb == ((buf & 0xff_ffffu32) << 8u32) as u32,
                    8 <= ii < 32,
            ;
        }
    }
    let nn = n as u32;
    assert(nb & (0xffff_ffffu32 >> ((nn - 8) as u32)) == 0) by (bit_vector)
        requires
            nb == ((buf & 0xff_ffffu32) << 8u32) as u32,
            8 <= nn <= 32,
            buf & (0xffff_ffffu32 >> nn) == 0,
    ;
    assert(top_bits(buf, n) == byte_bits(b) + top_bits(nb, (n - 8) as nat));
}

/// A staging word holding fewer than eight bits, emitted as one byte, is those bits padded with
/// zeros.
pub proof fn lemma_last_byte(buf: u32, n: nat)
    requires
        n < 8,
        clean(buf, n),
    ensures
        byte_bits((buf >> 24u32) as u8) == pad_to_byte(top_bits(buf, n)) || n == 0,
        n > 0 ==> ((buf & 0xff_ffffu32) << 8u32) as u32 == 0,
{
    if n > 0 {
        let b = (buf >> 24u32) as u8;
        let nn = n as u32;
        assert(b as u32 == buf >> 24u32) by (bit_vector)
            requires
                b == (buf >> 24u32) as u8,
        ;
        assert(((buf & 0xff_ffffu32) << 8u32) as u32 == 0) by (bit_vector)
            requires
                0 < nn < 8,
                buf & (0xffff_ffffu32 >> nn) == 0,
        ;
        let p = pad_to_byte(top_bits(buf, n));
        assert(p.len() == 8);
        assert forall|i: int| 0 <= i < 8 implies #[trigger] byte_bits(b)[i] == p[i] by {
            let ii = i as u32;
            let bb = b as u32;
            assert((bb >> ((7 - ii) as u32)) & 1u32 == (buf >> ((31 - ii) as u32)) & 1u32)
                by (bit_vector)
                requires
                    bb == buf >> 24u32,
                    ii < 8,
            ;
            if i >= n {
                assert((buf >> ((31 - ii) as u32)) & 1u32 == 0) by (bit_vector)
                    requires
                        nn <= ii < 8,
                        buf & (0xffff_ffffu32 >> nn) == 0,
                ;
            }
        }
        assert(byte_bits(b) == p);
    }
}

} // verus!
