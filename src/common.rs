//! Dictionary seeding and the minimum pattern size.
use vstd::prelude::*;

verus! {

/// Seed of the xorshift32 sequence that fills a fresh dictionary.
pub const DICTIONARY_SEED: u32 = 3758097560;

/// The sixteen bytes from which a fresh dictionary is drawn.
pub open spec fn common_characters() -> Seq<u8> {
    seq![
        0x20u8, 0x00, 0x30, 0x65, 0x69, 0x3e, 0x74, 0x6f,
        0x3c, 0x61, 0x6e, 0x73, 0x0a, 0x72, 0x2f, 0x2e,
    ]
}

/// One xorshift32 step.
pub open spec fn xorshift32_spec(x: u32) -> u32 {
    let a = x ^ (x << 13u32);
    let b = a ^ (a >> 17u32);
    b ^ (b << 5u32)
}

/// The generator state after `n` steps from the seed.
pub open spec fn seed_state(n: nat) -> u32
    decreases n,
{
    if n == 0 {
        DICTIONARY_SEED
    } else {
        xorshift32_spec(seed_state((n - 1) as nat))
    }
}

/// Byte `i` of a fresh dictionary: nibble `i % 8` of the state after `i / 8 + 1` steps.
pub open spec fn seed_byte(i: nat) -> u8 {
    let r = seed_state(i / 8 + 1);
    common_characters()[((r >> (4 * (i % 8)) as u32) & 0xfu32) as int]
}

/// A fresh dictionary of `n` bytes.
pub open spec fn seed_dictionary(n: nat) -> Seq<u8> {
    Seq::new(n, |i: int| seed_byte(i as nat))
}

/// Shortest pattern that is worth a back-reference.
pub open spec fn min_pattern_size_spec(window: int, literal: int) -> int {
    2 + if window > 10 + 2 * (literal - 5) { 1int } else { 0int }
}

/// Looks up entry `i` of the common-byte table.
fn common_character(i: u32) -> (c: u8)
    requires
        i < 16,
    ensures
        c == common_characters()[i as int],
{
    let table: [u8; 16] = [
        0x20, 0x00, 0x30, 0x65, 0x69, 0x3e, 0x74, 0x6f, 0x3c, 0x61, 0x6e, 0x73, 0x0a, 0x72, 0x2f,
        0x2e,
    ];
    proof {
        assert(table@ == common_characters());
    }
    table[i as usize]
}

/// Advances the generator one step and returns the new state.
fn xorshift32(state: &mut u32) -> (r: u32)
    ensures
        r == xorshift32_spec(*old(state)),
        *final(state) == r,
{
    let mut x = *state;
    x ^= x << 13u32;
    x ^= x >> 17u32;
    x ^= x << 5u32;
    *state = x;
    x
}

proof fn lemma_shift_nibble(s: u32, k: u32)
    requires
        k < 8,
    ensures
        (s >> (4 * k)) >> 4u32 == s >> (4 * (k + 1)),
{
    assert((s >> (4 * k)) >> 4u32 == s >> (4 * (k + 1))) by (bit_vector)
        requires
            k < 8,
    ;
}

/// Fills `buffer` with the deterministic seed pattern.
pub fn tamp_initialize_dictionary(buffer: &mut [u8])
    ensures
        final(buffer)@ == seed_dictionary(old(buffer)@.len()),
{
    let mut seed: u32 = DICTIONARY_SEED;
    let mut randbuf: u32 = 0;
    let n = buffer.len();
    let mut i: usize = 0;
    while i < n
        invariant
            n == buffer@.len(),
            n == old(buffer)@.len(),
            i <= n,
            seed == seed_state(((i + 7) / 8) as nat),
            i % 8 != 0 ==> randbuf == seed_state((i / 8 + 1) as nat) >> (4 * (i % 8)) as u32,
            forall|j: int| 0 <= j < i ==> buffer@[j] == seed_byte(j as nat),
        decreases n - i,
    {
        assert(((i & 7) == 0) == (i % 8 == 0)) by (bit_vector);
        if (i & 7) == 0 {
            randbuf = xorshift32(&mut seed);
            assert(randbuf >> 0u32 == randbuf) by (bit_vector);
        }
        assert(randbuf == seed_state((i / 8 + 1) as nat) >> (4 * (i % 8)) as u32);
        assert(randbuf & 0x0f < 16) by (bit_vector);
        buffer[i] = common_character(randbuf & 0x0f);
        proof {
            lemma_shift_nibble(seed_state((i / 8 + 1) as nat), (i % 8) as u32);
        }
        randbuf >>= 4u32;
        i += 1;
    }
    assert(buffer@ == seed_dictionary(n as nat));
}

/// Shortest pattern length for the given window and literal sizes.
pub fn tamp_compute_min_pattern_size(window: u8, literal: u8) -> (r: i8)
    requires
        5 <= literal <= 8,
    ensures
        r == min_pattern_size_spec(window as int, literal as int),
{
    2 + if window > 10 + (literal - 5) * 2 { 1 } else { 0 }
}

} // verus!
