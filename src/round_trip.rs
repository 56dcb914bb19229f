//! Decompression inverts compression.
use crate::bit_reader::{after_read, huffman_decode, huffman_scan, lemma_value_of_field};
use crate::bits::{bits_value, byte_bits, bytes_bits, field_bits, lemma_bytes_bits_len, pad_to_byte};
use crate::common::{min_pattern_size_spec, seed_dictionary};
use crate::compressor::{
    compress_spec, drain, encode_step, feed, finish, header_bits, initial_state,
    lemma_window_size, literal_token, longest_match, pattern_token, valid_params, window_size,
    EncoderState,
};
use crate::decompressor::{
    decode_from, decode_token, decompress_spec, lemma_token_code, lemma_token_end,
    lemma_token_literal, open_spec, DecoderState, Token,
};
use crate::error::TampError;
use crate::huffman::{code_len, code_value, lookup_spec, FLUSH_MARKER};
use crate::ring_buffer::{index_spec, matches_at, ring_write, scan};
use vstd::prelude::*;

verus! {

/// `2^n`.
pub open spec fn p2(n: nat) -> nat
    decreases n,
{
    if n == 0 {
        1
    } else {
        2 * p2((n - 1) as nat)
    }
}

proof fn lemma_value_bound(s: Seq<bool>)
    ensures
        bits_value(s) < p2(s.len()),
    decreases s.len(),
{
    if s.len() > 0 {
        lemma_value_bound(s.drop_last());
    }
}

proof fn lemma_value_concat(a: Seq<bool>, b: Seq<bool>)
    ensures
        bits_value(a + b) == bits_value(a) * p2(b.len()) + bits_value(b),
    decreases b.len(),
{
    if b.len() == 0 {
        assert(a + b == a);
        assert(p2(0) == 1);
        assert(bits_value(b) == 0);
    } else {
        lemma_value_concat(a, b.drop_last());
        assert((a + b).drop_last() == a + b.drop_last());
        assert((a + b).last() == b.last());
        assert(p2(b.len()) == 2 * p2((b.len() - 1) as nat));
        let x = bits_value(a) as int;
        let y = p2((b.len() - 1) as nat) as int;
        let v = bits_value(b.drop_last()) as int;
        let bit: int = if b.last() { 1 } else { 0 };
        assert(2 * (x * y) == x * (2 * y)) by (nonlinear_arith);
        assert(bits_value(a + b) == 2 * bits_value(a + b.drop_last()) + bit);
        assert(bits_value(b) == 2 * v + bit);
        assert(bits_value(a + b) == 2 * (x * y + v) + bit);
    }
}

/// The first `t` bits of a field spell its value with the low bits dropped.
proof fn lemma_prefix_value(g: Seq<bool>, t: int)
    requires
        0 <= t <= g.len(),
    ensures
        bits_value(g.take(t)) as int == (bits_value(g) as int) / (p2((g.len() - t) as nat) as int),
{
    lemma_value_concat(g.take(t), g.skip(t));
    assert(g.take(t) + g.skip(t) == g);
    lemma_value_bound(g.skip(t));
    let q = bits_value(g.take(t)) as int;
    let d = p2((g.len() - t) as nat) as int;
    let r = bits_value(g.skip(t)) as int;
    vstd::arithmetic::div_mod::lemma_fundamental_div_mod_converse_div(q * d + r, d, q, r);
}

proof fn lemma_after_read_adds(n: int, a: int, b: int)
    requires
        0 <= n,
        0 <= a,
        0 <= b,
    ensures
        after_read(after_read(n, a) as int, b) == after_read(n, a + b),
{
    if n < a {
        let m = (n - a) % 8;
        vstd::arithmetic::div_mod::lemma_fundamental_div_mod(n - a, 8);
        vstd::arithmetic::div_mod::lemma_fundamental_div_mod(n - a - b, 8);
        if m < b {
            vstd::arithmetic::div_mod::lemma_fundamental_div_mod(m - b, 8);
        }
    } else if n - a < b {
        vstd::arithmetic::div_mod::lemma_fundamental_div_mod(n - a - b, 8);
    }
}

/// Facts about small fields that the codec's parameters and table keep.
proof fn lemma_small_fields(a: u32, b: u32, p: u32, w: u32, c: u32, l: u32)
    by (bit_vector)
    ensures
        a < 8 ==> a >> 3u32 == 0,
        b < 4 ==> b >> 2u32 == 0,
        w <= 15 && p < (1u32 << w) ==> p >> w == 0,
        l <= 8 && c < (1u32 << l) ==> c >> l == 0,
        0x00u32 >> 2u32 == 0,
        0x03u32 >> 3u32 == 0,
        0x08u32 >> 5u32 == 0,
        0x0bu32 >> 5u32 == 0,
        0x14u32 >> 6u32 == 0,
        0x24u32 >> 7u32 == 0,
        0x26u32 >> 7u32 == 0,
        0x2bu32 >> 7u32 == 0,
        0x4bu32 >> 8u32 == 0,
        0x54u32 >> 8u32 == 0,
        0x94u32 >> 9u32 == 0,
        0x95u32 >> 9u32 == 0,
        0xaau32 >> 9u32 == 0,
        0x27u32 >> 7u32 == 0,
{
}

/// Each length code (FLUSH aside) is a value below its flag bit, spelled in full by its field,
/// and looked up as its own index.
proof fn lemma_code_lookup(i: int)
    requires
        0 <= i < 14,
    ensures
        code_value(i) < p2((code_len(i) - 1) as nat),
        lookup_spec(code_value(i)) == Some(i as u8),
        bits_value(field_bits(code_value(i) as u32, code_len(i))) == code_value(i),
        2 <= code_len(i) <= 9,
{
    reveal_with_fuel(p2, 10);
    lemma_small_fields(0, 0, 0, 8, 0, 5);
    if i == 0 {
        assert(code_value(i) == 0 && code_len(i) == 2);
        lemma_value_of_field(0u32, 2);
    } else if i == 1 {
        assert(code_value(i) == 3 && code_len(i) == 3);
        lemma_value_of_field(3u32, 3);
    } else if i == 2 {
        assert(code_value(i) == 8 && code_len(i) == 5);
        lemma_value_of_field(8u32, 5);
    } else if i == 3 {
        assert(code_value(i) == 11 && code_len(i) == 5);
        lemma_value_of_field(11u32, 5);
    } else if i == 4 {
        assert(code_value(i) == 20 && code_len(i) == 6);
        lemma_value_of_field(20u32, 6);
    } else if i == 5 {
        assert(code_value(i) == 36 && code_len(i) == 7);
        lemma_value_of_field(36u32, 7);
    } else if i == 6 {
        assert(code_value(i) == 38 && code_len(i) == 7);
        lemma_value_of_field(38u32, 7);
    } else if i == 7 {
        assert(code_value(i) == 43 && code_len(i) == 7);
        lemma_value_of_field(43u32, 7);
    } else if i == 8 {
        assert(code_value(i) == 75 && code_len(i) == 8);
        lemma_value_of_field(75u32, 8);
    } else if i == 9 {
        assert(code_value(i) == 84 && code_len(i) == 8);
        lemma_value_of_field(84u32, 8);
    } else if i == 10 {
        assert(code_value(i) == 148 && code_len(i) == 9);
        lemma_value_of_field(148u32, 9);
    } else if i == 11 {
        assert(code_value(i) == 149 && code_len(i) == 9);
        lemma_value_of_field(149u32, 9);
    } else if i == 12 {
        assert(code_value(i) == 170 && code_len(i) == 9);
        lemma_value_of_field(170u32, 9);
    } else if i == 13 {
        assert(code_value(i) == 39 && code_len(i) == 7);
        lemma_value_of_field(39u32, 7);
    }
}

/// Shorter prefixes of a length code (FLUSH aside) are no code.
#[verifier::spinoff_prover]
#[verifier::rlimit(50)]
proof fn lemma_code_table(i: int, t: int)
    requires
        0 <= i < 14,
        1 <= t < code_len(i) - 1,
    ensures
        lookup_spec(((code_value(i) as int) / (p2((code_len(i) - 1 - t) as nat) as int)) as nat) is None,
{
    reveal_with_fuel(p2, 10);
    assert(p2(1) == 2 && p2(2) == 4 && p2(3) == 8 && p2(4) == 16 && p2(5) == 32 && p2(6) == 64
        && p2(7) == 128 && p2(8) == 256);
    let d = p2((code_len(i) - 1 - t) as nat) as int;
    assert(t == 1 || t == 2 || t == 3 || t == 4 || t == 5 || t == 6 || t == 7);
    if i == 0 {
        assert(code_value(i) == 0 && code_len(i) == 2);
    } else if i == 1 {
        assert(code_value(i) == 3 && code_len(i) == 3);
        if t == 1 {
            assert(d == 2);
            vstd::arithmetic::div_mod::lemma_fundamental_div_mod_converse_div(3, 2, 1, 1);
            assert(((code_value(i) as int) / d) as nat == 1nat);
            assert(lookup_spec(1nat) is None);
        }
    } else if i == 2 {
        assert(code_value(i) == 8 && code_len(i) == 5);
        if t == 1 {
            assert(d == 8);
            vstd::arithmetic::div_mod::lemma_fundamental_div_mod_converse_div(8, 8, 1, 0);
            assert(((code_value(i) as int) / d) as nat == 1nat);
            assert(lookup_spec(1nat) is None);
        } else if t == 2 {
            assert(d == 4);
            vstd::arithmetic::div_mod::lemma_fundamental_div_mod_converse_div(8, 4, 2, 0);
            assert(((code_value(i) as int) / d) as nat == 2nat);
            assert(lookup_spec(2nat) is None);
        } else if t == 3 {
            assert(d == 2);
            vstd::arithmetic::div_mod::lemma_fundamental_div_mod_converse_div(8, 2, 4, 0);
            assert(((code_value(i) as int) / d) as nat == 4nat);
            assert(lookup_spec(4nat) is None);
        }
    } else if i == 3 {
        assert(code_value(i) == 11 && code_len(i) == 5);
        if t == 1 {
            assert(d == 8);
            vstd::arithmetic::div_mod::lemma_fundamental_div_mod_converse_div(11, 8, 1, 3);
            assert(((code_value(i) as int) / d) as nat == 1nat);
            assert(lookup_spec(1nat) is None);
        } else if t == 2 {
            assert(d == 4);
            vstd::arithmetic::div_mod::lemma_fundamental_div_mod_converse_div(11, 4, 2, 3);
            assert(((code_value(i) as int) / d) as nat == 2nat);
            assert(lookup_spec(2nat) is None);
        } else if t == 3 {
            assert(d == 2);
            vstd::arithmetic::div_mod::lemma_fundamental_div_mod_converse_div(11, 2, 5, 1);
            assert(((code_value(i) as int) / d) as nat == 5nat);
            assert(lookup_spec(5nat) is None);
        }
    } else if i == 4 {
        assert(code_value(i) == 20 && code_len(i) == 6);
        if t == 1 {
            assert(d == 16);
            vstd::arithmetic::div_mod::lemma_fundamental_div_mod_converse_div(20, 16, 1, 4);
            assert(((code_value(i) as int) / d) as nat == 1nat);
            assert(lookup_spec(1nat) is None);
        } else if t == 2 {
            assert(d == 8);
            vstd::arithmetic::div_mod::lemma_fundamental_div_mod_converse_div(20, 8, 2, 4);
            assert(((code_value(i) as int) / d) as nat == 2nat);
            assert(lookup_spec(2nat) is None);
        } else if t == 3 {
            assert(d == 4);
            vstd::arithmetic::div_mod::lemma_fundamental_div_mod_converse_div(20, 4, 5, 0);
            assert(((code_value(i) as int) / d) as nat == 5nat);
            assert(lookup_spec(5nat) is None);
        } else if t == 4 {
            assert(d == 2);
            vstd::arithmetic::div_mod::lemma_fundamental_div_mod_converse_div(20, 2, 10, 0);
            assert(((code_value(i) as int) / d) as nat == 10nat);
            assert(lookup_spec(10nat) is None);
        }
    } else if i == 5 {
        assert(code_value(i) == 36 && code_len(i) == 7);
        if t == 1 {
            assert(d == 32);
            vstd::arithmetic::div_mod::lemma_fundamental_div_mod_converse_div(36, 32, 1, 4);
            assert(((code_value(i) as int) / d) as nat == 1nat);
            assert(lookup_spec(1nat) is None);
        } else if t == 2 {
            assert(d == 16);
            vstd::arithmetic::div_mod::lemma_fundamental_div_mod_converse_div(36, 16, 2, 4);
            assert(((code_value(i) as int) / d) as nat == 2nat);
            assert(lookup_spec(2nat) is None);
        } else if t == 3 {
            assert(d == 8);
            vstd::arithmetic::div_mod::lemma_fundamental_div_mod_converse_div(36, 8, 4, 4);
            assert(((code_value(i) as int) / d) as nat == 4nat);
            assert(lookup_spec(4nat) is None);
        } else if t == 4 {
            assert(d == 4);
            vstd::arithmetic::div_mod::lemma_fundamental_div_mod_converse_div(36, 4, 9, 0);
            assert(((code_value(i) as int) / d) as nat == 9nat);
            assert(lookup_spec(9nat) is None);
        } else if t == 5 {
            assert(d == 2);
            vstd::arithmetic::div_mod::lemma_fundamental_div_mod_converse_div(36, 2, 18, 0);
            assert(((code_value(i) as int) / d) as nat == 18nat);
            assert(lookup_spec(18nat) is None);
        }
    } else if i == 6 {
        assert(code_value(i) == 38 && code_len(i) == 7);
        if t == 1 {
            assert(d == 32);
            vstd::arithmetic::div_mod::lemma_fundamental_div_mod_converse_div(38, 32, 1, 6);
            assert(((code_value(i) as int) / d) as nat == 1nat);
            assert(lookup_spec(1nat) is None);
        } else if t == 2 {
            assert(d == 16);
            vstd::arithmetic::div_mod::lemma_fundamental_div_mod_converse_div(38, 16, 2, 6);
            assert(((code_value(i) as int) / d) as nat == 2nat);
            assert(lookup_spec(2nat) is None);
        } else if t == 3 {
            assert(d == 8);
            vstd::arithmetic::div_mod::lemma_fundamental_div_mod_converse_div(38, 8, 4, 6);
            assert(((code_value(i) as int) / d) as nat == 4nat);
            assert(lookup_spec(4nat) is None);
        } else if t == 4 {
            assert(d == 4);
            vstd::arithmetic::div_mod::lemma_fundamental_div_mod_converse_div(38, 4, 9, 2);
            assert(((code_value(i) as int) / d) as nat == 9nat);
            assert(lookup_spec(9nat) is None);
        } else if t == 5 {
            assert(d == 2);
            vstd::arithmetic::div_mod::lemma_fundamental_div_mod_converse_div(38, 2, 19, 0);
            assert(((code_value(i) as int) / d) as nat == 19nat);
            assert(lookup_spec(19nat) is None);
        }
    } else if i == 7 {
        assert(code_value(i) == 43 && code_len(i) == 7);
        if t == 1 {
            assert(d == 32);
            vstd::arithmetic::div_mod::lemma_fundamental_div_mod_converse_div(43, 32, 1, 11);
            assert(((code_value(i) as int) / d) as nat == 1nat);
            assert(lookup_spec(1nat) is None);
        } else if t == 2 {
            assert(d == 16);
            vstd::arithmetic::div_mod::lemma_fundamental_div_mod_converse_div(43, 16, 2, 11);
            assert(((code_value(i) as int) / d) as nat == 2nat);
            assert(lookup_spec(2nat) is None);
        } else if t == 3 {
            assert(d == 8);
            vstd::arithmetic::div_mod::lemma_fundamental_div_mod_converse_div(43, 8, 5, 3);
            assert(((code_value(i) as int) / d) as nat == 5nat);
            assert(lookup_spec(5nat) is None);
        } else if t == 4 {
            assert(d == 4);
            vstd::arithmetic::div_mod::lemma_fundamental_div_mod_converse_div(43, 4, 10, 3);
            assert(((code_value(i) as int) / d) as nat == 10nat);
            assert(lookup_spec(10nat) is None);
        } else if t == 5 {
            assert(d == 2);
            vstd::arithmetic::div_mod::lemma_fundamental_div_mod_converse_div(43, 2, 21, 1);
            assert(((code_value(i) as int) / d) as nat == 21nat);
            assert(lookup_spec(21nat) is None);
        }
    } else if i == 8 {
        assert(code_value(i) == 75 && code_len(i) == 8);
        if t == 1 {
            assert(d == 64);
            vstd::arithmetic::div_mod::lemma_fundamental_div_mod_converse_div(75, 64, 1, 11);
            assert(((code_value(i) as int) / d) as nat == 1nat);
            assert(lookup_spec(1nat) is None);
        } else if t == 2 {
            assert(d == 32);
            vstd::arithmetic::div_mod::lemma_fundamental_div_mod_converse_div(75, 32, 2, 11);
            assert(((code_value(i) as int) / d) as nat == 2nat);
            assert(lookup_spec(2nat) is None);
        } else if t == 3 {
            assert(d == 16);
            vstd::arithmetic::div_mod::lemma_fundamental_div_mod_converse_div(75, 16, 4, 11);
            assert(((code_value(i) as int) / d) as nat == 4nat);
            assert(lookup_spec(4nat) is None);
        } else if t == 4 {
            assert(d == 8);
            vstd::arithmetic::div_mod::lemma_fundamental_div_mod_converse_div(75, 8, 9, 3);
            assert(((code_value(i) as int) / d) as nat == 9nat);
            assert(lookup_spec(9nat) is None);
        } else if t == 5 {
            assert(d == 4);
            vstd::arithmetic::div_mod::lemma_fundamental_div_mod_converse_div(75, 4, 18, 3);
            assert(((code_value(i) as int) / d) as nat == 18nat);
            assert(lookup_spec(18nat) is None);
        } else if t == 6 {
            assert(d == 2);
            vstd::arithmetic::div_mod::lemma_fundamental_div_mod_converse_div(75, 2, 37, 1);
            assert(((code_value(i) as int) / d) as nat == 37nat);
            assert(lookup_spec(37nat) is None);
        }
    } else if i == 9 {
        assert(code_value(i) == 84 && code_len(i) == 8);
        if t == 1 {
            assert(d == 64);
            vstd::arithmetic::div_mod::lemma_fundamental_div_mod_converse_div(84, 64, 1, 20);
            assert(((code_value(i) as int) / d) as nat == 1nat);
            assert(lookup_spec(1nat) is None);
        } else if t == 2 {
            assert(d == 32);
            vstd::arithmetic::div_mod::lemma_fundamental_div_mod_converse_div(84, 32, 2, 20);
            assert(((code_value(i) as int) / d) as nat == 2nat);
            assert(lookup_spec(2nat) is None);
        } else if t == 3 {
            assert(d == 16);
            vstd::arithmetic::div_mod::lemma_fundamental_div_mod_converse_div(84, 16, 5, 4);
            assert(((code_value(i) as int) / d) as nat == 5nat);
            assert(lookup_spec(5nat) is None);
        } else if t == 4 {
            assert(d == 8);
            vstd::arithmetic::div_mod::lemma_fundamental_div_mod_converse_div(84, 8, 10, 4);
            assert(((code_value(i) as int) / d) as nat == 10nat);
            assert(lookup_spec(10nat) is None);
        } else if t == 5 {
            assert(d == 4);
            vstd::arithmetic::div_mod::lemma_fundamental_div_mod_converse_div(84, 4, 21, 0);
            assert(((code_value(i) as int) / d) as nat == 21nat);
            assert(lookup_spec(21nat) is None);
        } else if t == 6 {
            assert(d == 2);
            vstd::arithmetic::div_mod::lemma_fundamental_div_mod_converse_div(84, 2, 42, 0);
            assert(((code_value(i) as int) / d) as nat == 42nat);
            assert(lookup_spec(42nat) is None);
        }
    } else if i == 10 {
        assert(code_value(i) == 148 && code_len(i) == 9);
        if t == 1 {
            assert(d == 128);
            vstd::arithmetic::div_mod::lemma_fundamental_div_mod_converse_div(148, 128, 1, 20);
            assert(((code_value(i) as int) / d) as nat == 1nat);
            assert(lookup_spec(1nat) is None);
        } else if t == 2 {
            assert(d == 64);
            vstd::arithmetic::div_mod::lemma_fundamental_div_mod_converse_div(148, 64, 2, 20);
            assert(((code_value(i) as int) / d) as nat == 2nat);
            assert(lookup_spec(2nat) is None);
        } else if t == 3 {
            assert(d == 32);
            vstd::arithmetic::div_mod::lemma_fundamental_div_mod_converse_div(148, 32, 4, 20);
            assert(((code_value(i) as int) / d) as nat == 4nat);
            assert(lookup_spec(4nat) is None);
        } else if t == 4 {
            assert(d == 16);
            vstd::arithmetic::div_mod::lemma_fundamental_div_mod_converse_div(148, 16, 9, 4);
            assert(((code_value(i) as int) / d) as nat == 9nat);
            assert(lookup_spec(9nat) is None);
        } else if t == 5 {
            assert(d == 8);
            vstd::arithmetic::div_mod::lemma_fundamental_div_mod_converse_div(148, 8, 18, 4);
            assert(((code_value(i) as int) / d) as nat == 18nat);
            assert(lookup_spec(18nat) is None);
        } else if t == 6 {
            assert(d == 4);
            vstd::arithmetic::div_mod::lemma_fundamental_div_mod_converse_div(148, 4, 37, 0);
            assert(((code_value(i) as int) / d) as nat == 37nat);
            assert(lookup_spec(37nat) is None);
        } else if t == 7 {
            assert(d == 2);
            vstd::arithmetic::div_mod::lemma_fundamental_div_mod_converse_div(148, 2, 74, 0);
            assert(((code_value(i) as int) / d) as nat == 74nat);
            assert(lookup_spec(74nat) is None);
        }
    } else if i == 11 {
        assert(code_value(i) == 149 && code_len(i) == 9);
        if t == 1 {
            assert(d == 128);
            vstd::arithmetic::div_mod::lemma_fundamental_div_mod_converse_div(149, 128, 1, 21);
            assert(((code_value(i) as int) / d) as nat == 1nat);
            assert(lookup_spec(1nat) is None);
        } else if t == 2 {
            assert(d == 64);
            vstd::arithmetic::div_mod::lemma_fundamental_div_mod_converse_div(149, 64, 2, 21);
            assert(((code_value(i) as int) / d) as nat == 2nat);
            assert(lookup_spec(2nat) is None);
        } else if t == 3 {
            assert(d == 32);
            vstd::arithmetic::div_mod::lemma_fundamental_div_mod_converse_div(149, 32, 4, 21);
            assert(((code_value(i) as int) / d) as nat == 4nat);
            assert(lookup_spec(4nat) is None);
        } else if t == 4 {
            assert(d == 16);
            vstd::arithmetic::div_mod::lemma_fundamental_div_mod_converse_div(149, 16, 9, 5);
            assert(((code_value(i) as int) / d) as nat == 9nat);
            assert(lookup_spec(9nat) is None);
        } else if t == 5 {
            assert(d == 8);
            vstd::arithmetic::div_mod::lemma_fundamental_div_mod_converse_div(149, 8, 18, 5);
            assert(((code_value(i) as int) / d) as nat == 18nat);
            assert(lookup_spec(18nat) is None);
        } else if t == 6 {
            assert(d == 4);
            vstd::arithmetic::div_mod::lemma_fundamental_div_mod_converse_div(149, 4, 37, 1);
            assert(((code_value(i) as int) / d) as nat == 37nat);
            assert(lookup_spec(37nat) is None);
        } else if t == 7 {
            assert(d == 2);
            vstd::arithmetic::div_mod::lemma_fundamental_div_mod_converse_div(149, 2, 74, 1);
            assert(((code_value(i) as int) / d) as nat == 74nat);
            assert(lookup_spec(74nat) is None);
        }
    } else if i == 12 {
        assert(code_value(i) == 170 && code_len(i) == 9);
        if t == 1 {
            assert(d == 128);
            vstd::arithmetic::div_mod::lemma_fundamental_div_mod_converse_div(170, 128, 1, 42);
            assert(((code_value(i) as int) / d) as nat == 1nat);
            assert(lookup_spec(1nat) is None);
        } else if t == 2 {
            assert(d == 64);
            vstd::arithmetic::div_mod::lemma_fundamental_div_mod_converse_div(170, 64, 2, 42);
            assert(((code_value(i) as int) / d) as nat == 2nat);
            assert(lookup_spec(2nat) is None);
        } else if t == 3 {
            assert(d == 32);
            vstd::arithmetic::div_mod::lemma_fundamental_div_mod_converse_div(170, 32, 5, 10);
            assert(((code_value(i) as int) / d) as nat == 5nat);
            assert(lookup_spec(5nat) is None);
        } else if t == 4 {
            assert(d == 16);
            vstd::arithmetic::div_mod::lemma_fundamental_div_mod_converse_div(170, 16, 10, 10);
            assert(((code_value(i) as int) / d) as nat == 10nat);
            assert(lookup_spec(10nat) is None);
        } else if t == 5 {
            assert(d == 8);
            vstd::arithmetic::div_mod::lemma_fundamental_div_mod_converse_div(170, 8, 21, 2);
            assert(((code_value(i) as int) / d) as nat == 21nat);
            assert(lookup_spec(21nat) is None);
        } else if t == 6 {
            assert(d == 4);
            vstd::arithmetic::div_mod::lemma_fundamental_div_mod_converse_div(170, 4, 42, 2);
            assert(((code_value(i) as int) / d) as nat == 42nat);
            assert(lookup_spec(42nat) is None);
        } else if t == 7 {
            assert(d == 2);
            vstd::arithmetic::div_mod::lemma_fundamental_div_mod_converse_div(170, 2, 85, 0);
            assert(((code_value(i) as int) / d) as nat == 85nat);
            assert(lookup_spec(85nat) is None);
        }
    } else if i == 13 {
        assert(code_value(i) == 39 && code_len(i) == 7);
        if t == 1 {
            assert(d == 32);
            vstd::arithmetic::div_mod::lemma_fundamental_div_mod_converse_div(39, 32, 1, 7);
            assert(((code_value(i) as int) / d) as nat == 1nat);
            assert(lookup_spec(1nat) is None);
        } else if t == 2 {
            assert(d == 16);
            vstd::arithmetic::div_mod::lemma_fundamental_div_mod_converse_div(39, 16, 2, 7);
            assert(((code_value(i) as int) / d) as nat == 2nat);
            assert(lookup_spec(2nat) is None);
        } else if t == 3 {
            assert(d == 8);
            vstd::arithmetic::div_mod::lemma_fundamental_div_mod_converse_div(39, 8, 4, 7);
            assert(((code_value(i) as int) / d) as nat == 4nat);
            assert(lookup_spec(4nat) is None);
        } else if t == 4 {
            assert(d == 4);
            vstd::arithmetic::div_mod::lemma_fundamental_div_mod_converse_div(39, 4, 9, 3);
            assert(((code_value(i) as int) / d) as nat == 9nat);
            assert(lookup_spec(9nat) is None);
        } else if t == 5 {
            assert(d == 2);
            vstd::arithmetic::div_mod::lemma_fundamental_div_mod_converse_div(39, 2, 19, 1);
            assert(((code_value(i) as int) / d) as nat == 19nat);
            assert(lookup_spec(19nat) is None);
        }
    }
}

/// The code bits after the flag decode to index `i`, whatever follows them.
proof fn lemma_scan_code(i: int, g: Seq<bool>, y: Seq<bool>, t: int)
    requires
        0 <= i < 14,
        g.len() == code_len(i) - 1,
        bits_value(g) == code_value(i),
        1 <= t <= g.len(),
    ensures
        huffman_scan(g + y, t) == Ok::<(u8, int), TampError>((i as u8, g.len() as int)),
    decreases g.len() - t,
{
    lemma_code_lookup(i);
    assert((g + y).take(t) == g.take(t));
    lemma_prefix_value(g, t);
    if t < g.len() {
        lemma_code_table(i, t);
        lemma_scan_code(i, g, y, t + 1);
    } else {
        assert(g.take(t) == g);
        assert(p2(0) == 1);
    }
}

/// A literal token decodes to its byte.
pub proof fn lemma_decode_literal(
    c: u8,
    x: Seq<bool>,
    b: nat,
    win: Seq<u8>,
    pos: int,
    window: u8,
    literal: u8,
)
    requires
        valid_params(window as int, literal as int),
        (c as u32) >> (literal as u32) == 0,
    ensures
        decode_token(
            DecoderState { rest: literal_token(c, literal as nat) + x, buffered: b, window: win, pos },
            window,
            literal,
        ) == Token::Bytes(
            seq![c],
            DecoderState {
                rest: x,
                buffered: after_read(b as int, 1 + literal),
                window: win.update(pos, c),
                pos: (pos + 1) % (win.len() as int),
            },
        ),
{
    let l = literal as int;
    let f = field_bits(c as u32, literal as nat);
    let r = literal_token(c, literal as nat) + x;
    let st = DecoderState { rest: r, buffered: b, window: win, pos };
    assert(r[0]);
    lemma_token_literal(st, window, literal);
    assert(r.subrange(1, 1 + l) == f);
    assert(r.skip(1 + l) == x);
    lemma_value_of_field(c as u32, literal as nat);
    lemma_after_read_adds(b as int, 1, l);
}

/// A code's field starts with the flag bit 0; the rest spells the code's value.
proof fn lemma_code_bits(i: int)
    requires
        0 <= i < 14,
    ensures
        ({
            let f = field_bits(code_value(i) as u32, code_len(i));
            &&& !f[0]
            &&& f.skip(1).len() == code_len(i) - 1
            &&& bits_value(f.skip(1)) == code_value(i)
        }),
{
    let f = field_bits(code_value(i) as u32, code_len(i));
    lemma_code_lookup(i);
    let g = f.skip(1);
    lemma_value_concat(f.take(1), g);
    assert(f.take(1) + g == f);
    lemma_value_bound(g);
    assert(f.take(1) == seq![f[0]]);
    assert(seq![f[0]].drop_last() == Seq::<bool>::empty());
    assert(bits_value(Seq::<bool>::empty()) == 0);
    if f[0] {
        assert(bits_value(f.take(1)) == 1);
        assert(false);
    }
    assert(bits_value(f.take(1)) == 0);
    assert(bits_value(g) == code_value(i));
}

/// A pattern token cut short decodes to nothing yet: the stream ends inside it.
proof fn lemma_cut_pattern(i: int, p: int, j: int, b: nat, win: Seq<u8>, pos: int, window: u8, literal: u8)
    requires
        valid_params(window as int, literal as int),
        0 <= i < 14,
        0 <= j < pattern_token(i, p, window as nat).len(),
    ensures
        decode_token(
            DecoderState { rest: pattern_token(i, p, window as nat).take(j), buffered: b, window: win, pos },
            window,
            literal,
        ) is End,
{
    let tk = pattern_token(i, p, window as nat);
    let v = tk.take(j);
    let st = DecoderState { rest: v, buffered: b, window: win, pos };
    let f = field_bits(code_value(i) as u32, code_len(i));
    let q = field_bits(p as u32, window as nat);
    let len_i = code_len(i) as int;
    lemma_code_lookup(i);
    if j > 0 {
        lemma_code_bits(i);
        let g = f.skip(1);
        assert(v[0] == f[0]);
        if j >= len_i {
            assert(v.skip(1) == g + q.take(j - len_i));
            lemma_scan_code(i, g, q.take(j - len_i), 1);
        } else {
            assert(v.skip(1) == g.take(j - 1));
            lemma_scan_prefix_eof(i, g, j - 1, 1);
        }
    }
    lemma_token_end(st, window, literal);
}

/// A literal token cut short decodes to nothing yet.
proof fn lemma_cut_literal(c: u8, j: int, b: nat, win: Seq<u8>, pos: int, window: u8, literal: u8)
    requires
        0 <= j < literal_token(c, literal as nat).len(),
    ensures
        decode_token(
            DecoderState { rest: literal_token(c, literal as nat).take(j), buffered: b, window: win, pos },
            window,
            literal,
        ) is End,
{
    let st = DecoderState { rest: literal_token(c, literal as nat).take(j), buffered: b, window: win, pos };
    lemma_token_end(st, window, literal);
}

/// The bits of a code cut short of its end reach the end of the stream before any code.
proof fn lemma_scan_prefix_eof(i: int, g: Seq<bool>, m: int, t: int)
    requires
        0 <= i < 14,
        g.len() == code_len(i) - 1,
        bits_value(g) == code_value(i),
        0 <= m < g.len(),
        1 <= t <= m + 1,
    ensures
        huffman_scan(g.take(m), t) == Err::<(u8, int), TampError>(TampError::UnexpectedEndOfStream),
    decreases m + 1 - t,
{
    lemma_code_lookup(i);
    if t <= m {
        assert(g.take(m).take(t) == g.take(t));
        lemma_prefix_value(g, t);
        lemma_code_table(i, t);
        lemma_scan_prefix_eof(i, g, m, t + 1);
    }
}

/// A pattern token decodes to the run that its position and length pick from the window.
pub proof fn lemma_decode_pattern(
    i: int,
    p: int,
    x: Seq<bool>,
    b: nat,
    win: Seq<u8>,
    pos: int,
    window: u8,
    literal: u8,
)
    requires
        valid_params(window as int, literal as int),
        0 <= i < 14,
        0 <= p < win.len(),
        win.len() == window_size(window),
    ensures
        ({
            let n = win.len() as int;
            let len = i + min_pattern_size_spec(window as int, literal as int);
            let run = Seq::new(len as nat, |k: int| win[(p + k) % n]);
            decode_token(
                DecoderState { rest: pattern_token(i, p, window as nat) + x, buffered: b, window: win, pos },
                window,
                literal,
            ) == Token::Bytes(
                run,
                DecoderState {
                    rest: x,
                    buffered: after_read(b as int, code_len(i) + window),
                    window: ring_write(win, pos, run),
                    pos: (pos + len) % n,
                },
            )
        }),
{
    let w = window as int;
    let len_i = code_len(i) as int;
    let f = field_bits(code_value(i) as u32, code_len(i));
    let q = field_bits(p as u32, window as nat);
    let r = pattern_token(i, p, window as nat) + x;
    let st = DecoderState { rest: r, buffered: b, window: win, pos };
    lemma_code_lookup(i);
    lemma_small_fields(0, 0, p as u32, window as u32, 0, 5);
    lemma_value_of_field(p as u32, window as nat);
    lemma_code_bits(i);
    let g = f.skip(1);
    assert(r[0] == f[0]);
    assert(r.skip(1) == g + (q + x));
    lemma_scan_code(i, g, q + x, 1);
    assert(huffman_decode(r.skip(1)) == Ok::<(u8, int), TampError>((i as u8, len_i - 1)));
    lemma_token_code(st, window, literal);
    assert(r.subrange(len_i, len_i + w) == q);
    assert(r.skip(len_i + w) == x);
    lemma_after_read_adds(b as int, 1, len_i - 1);
    lemma_after_read_adds(b as int, len_i, w);
}

/// Zero padding shorter than a byte decodes to nothing.
pub proof fn lemma_decode_padding(z: Seq<bool>, b: nat, win: Seq<u8>, pos: int, window: u8, literal: u8)
    requires
        valid_params(window as int, literal as int),
        z.len() < 8,
        forall|j: int| 0 <= j < z.len() ==> !z[j],
    ensures
        decode_from(DecoderState { rest: z, buffered: b, window: win, pos }, window, literal) == (
            Seq::<u8>::empty(),
            None::<TampError>,
        ),
{
    let st = DecoderState { rest: z, buffered: b, window: win, pos };
    if z.len() >= 2 {
        let y = z.skip(1);
        assert(y.take(1) == seq![false]);
        assert(seq![false].drop_last() == Seq::<bool>::empty());
        assert(bits_value(Seq::<bool>::empty()) == 0);
        assert(bits_value(y.take(1)) == 0);
        assert(huffman_decode(y) == Ok::<(u8, int), TampError>((0u8, 1int)));
    } else if z.len() == 1 {
        assert(huffman_decode(z.skip(1)) == Err::<(u8, int), TampError>(
            TampError::UnexpectedEndOfStream,
        ));
    }
    lemma_token_end(st, window, literal);
}

proof fn lemma_ring_write_len(buf: Seq<u8>, pos: int, data: Seq<u8>)
    requires
        buf.len() > 0,
    ensures
        ring_write(buf, pos, data).len() == buf.len(),
    decreases data.len(),
{
    if data.len() > 0 {
        lemma_ring_write_len(buf, pos, data.drop_last());
    }
}

proof fn lemma_scan_found(buf: Seq<u8>, pat: Seq<u8>, start: int, c: int)
    requires
        buf.len() > 0,
    ensures
        scan(buf, pat, start, c) matches Some(i) ==> matches_at(buf, pat, i) && 0 <= i < buf.len(),
    decreases buf.len() - pat.len() + 1 - c,
{
    if c < 0 || c > buf.len() - pat.len() {
    } else if matches_at(buf, pat, (start + c) % (buf.len() as int)) {
    } else {
        lemma_scan_found(buf, pat, start, c + 1);
    }
}

proof fn lemma_longest_found(win: Seq<u8>, q: Seq<u8>, pmin: int, size: int)
    requires
        win.len() > 0,
        pmin >= 1,
        size <= q.len(),
    ensures
        longest_match(win, q, pmin, size) matches Some((s, p)) ==> pmin <= s <= size && 0 <= p
            < win.len() && matches_at(win, q.take(s), p),
    decreases size,
{
    if size < pmin || size < 1 {
    } else {
        match index_spec(win, q.take(size), 0) {
            Some(p) => {
                lemma_scan_found(win, q.take(size), 0, 0);
            },
            None => {
                lemma_longest_found(win, q, pmin, size - 1);
            },
        }
    }
}

/// Every byte fits in `literal` bits.
pub open spec fn fits(s: Seq<u8>, literal: u8) -> bool {
    forall|j: int| 0 <= j < s.len() ==> ((#[trigger] s[j]) as u32) >> (literal as u32) == 0
}

/// Decoding `t` from a fresh window `d0`, followed by anything, first gives `c` and leaves the
/// decoder where the encoder state `e` is.
pub open spec fn decodes_as(t: Seq<bool>, c: Seq<u8>, d0: Seq<u8>, e: EncoderState, window: u8, literal: u8) -> bool {
    forall|x: Seq<bool>, b: nat|
        #[trigger] decode_from(DecoderState { rest: t + x, buffered: b, window: d0, pos: 0 }, window, literal)
            == (c + decode_from(
            DecoderState { rest: x, buffered: after_read(b as int, t.len() as int), window: e.window, pos: e.pos },
            window,
            literal,
        ).0, decode_from(
            DecoderState { rest: x, buffered: after_read(b as int, t.len() as int), window: e.window, pos: e.pos },
            window,
            literal,
        ).1)
}

/// `p` is a prefix of `c`.
pub open spec fn is_prefix(p: Seq<u8>, c: Seq<u8>) -> bool {
    p.len() <= c.len() && c.take(p.len() as int) == p
}

/// Every prefix of `t`, decoded from a fresh window `d0`, gives a prefix of `c` and no error.
pub open spec fn cuts_decode(t: Seq<bool>, c: Seq<u8>, d0: Seq<u8>, window: u8, literal: u8) -> bool {
    forall|j: int, b: nat|
        0 <= j <= t.len() ==> {
            let d = #[trigger] decode_from(
                DecoderState { rest: t.take(j), buffered: b, window: d0, pos: 0 },
                window,
                literal,
            );
            d.1 is None && is_prefix(d.0, c)
        }
}

/// One greedy step: its token decodes to exactly the bytes it takes off the queue, and leaves
/// the decoder's window as the encoder's.
proof fn lemma_step(e: EncoderState, window: u8, literal: u8)
    requires
        valid_params(window as int, literal as int),
        e.window.len() == window_size(window),
        0 <= e.pos < e.window.len(),
        e.queue.len() > 0,
        e.queue.len() <= min_pattern_size_spec(window as int, literal as int) + 13,
        fits(e.queue, literal),
    ensures
        encode_step(e, window, literal) matches Ok(e2) && ({
            let k = e.queue.len() - e2.queue.len();
            let tk = e2.bits.skip(e.bits.len() as int);
            &&& 1 <= k <= e.queue.len()
            &&& e2.queue == e.queue.skip(k)
            &&& e2.bits == e.bits + tk
            &&& tk.len() > 0
            &&& e2.window.len() == e.window.len()
            &&& 0 <= e2.pos < e2.window.len()
            &&& forall|x: Seq<bool>, b: nat|
                #[trigger] decode_token(
                    DecoderState { rest: tk + x, buffered: b, window: e.window, pos: e.pos },
                    window,
                    literal,
                ) == Token::Bytes(
                    e.queue.take(k),
                    DecoderState {
                        rest: x,
                        buffered: after_read(b as int, tk.len() as int),
                        window: e2.window,
                        pos: e2.pos,
                    },
                )
            &&& forall|j: int, b: nat|
                0 <= j < tk.len() ==> #[trigger] decode_token(
                    DecoderState { rest: tk.take(j), buffered: b, window: e.window, pos: e.pos },
                    window,
                    literal,
                ) is End
        }),
{
    let pmin = min_pattern_size_spec(window as int, literal as int);
    let n = e.window.len() as int;
    lemma_window_size(window);
    lemma_longest_found(e.window, e.queue, pmin, e.queue.len() as int);
    match longest_match(e.window, e.queue, pmin, e.queue.len() as int) {
        Some((size, p)) => {
            let run = Seq::new(size as nat, |k: int| e.window[(p + k) % n]);
            assert(run == e.queue.take(size));
            let tk = pattern_token(size - pmin, p, window as nat);
            let e2 = encode_step(e, window, literal)->Ok_0;
            assert(e2.bits.skip(e.bits.len() as int) == tk);
            lemma_ring_write_len(e.window, e.pos, e.queue.take(size));
            assert(e2.queue == e.queue.skip(size));
            assert(e.queue.len() - e2.queue.len() == size);
            assert(e2.bits == e.bits + tk);
            assert(tk.len() > 0);
            assert(0 <= e2.pos < e2.window.len());
            assert forall|x: Seq<bool>, b: nat|
                #[trigger] decode_token(
                    DecoderState { rest: tk + x, buffered: b, window: e.window, pos: e.pos },
                    window,
                    literal,
                ) == Token::Bytes(
                    e.queue.take(size),
                    DecoderState {
                        rest: x,
                        buffered: after_read(b as int, tk.len() as int),
                        window: e2.window,
                        pos: e2.pos,
                    },
                ) by {
                lemma_decode_pattern(size - pmin, p, x, b, e.window, e.pos, window, literal);
            }
            assert forall|j: int, b: nat| 0 <= j < tk.len() implies #[trigger] decode_token(
                DecoderState { rest: tk.take(j), buffered: b, window: e.window, pos: e.pos },
                window,
                literal,
            ) is End by {
                lemma_cut_pattern(size - pmin, p, j, b, e.window, e.pos, window, literal);
            }
        },
        None => {
            let c = e.queue[0];
            let tk = literal_token(c, literal as nat);
            assert((c as u32) >> (literal as u32) == 0);
            let e2 = encode_step(e, window, literal)->Ok_0;
            assert(e2.bits.skip(e.bits.len() as int) == tk);
            assert(e.queue.take(1) == seq![c]);
            assert(e2.queue == e.queue.skip(1));
            assert(e2.bits == e.bits + tk);
            assert(0 <= e2.pos < e2.window.len());
            assert forall|x: Seq<bool>, b: nat|
                #[trigger] decode_token(
                    DecoderState { rest: tk + x, buffered: b, window: e.window, pos: e.pos },
                    window,
                    literal,
                ) == Token::Bytes(
                    e.queue.take(1),
                    DecoderState {
                        rest: x,
                        buffered: after_read(b as int, tk.len() as int),
                        window: e2.window,
                        pos: e2.pos,
                    },
                ) by {
                lemma_decode_literal(c, x, b, e.window, e.pos, window, literal);
            }
            assert forall|j: int, b: nat| 0 <= j < tk.len() implies #[trigger] decode_token(
                DecoderState { rest: tk.take(j), buffered: b, window: e.window, pos: e.pos },
                window,
                literal,
            ) is End by {
                lemma_cut_literal(c, j, b, e.window, e.pos, window, literal);
            }
        },
    }
}

/// An encoder state reached by receiving `fed`: the queue is the tail of `fed`, the header
/// `h` leads the stream, and the tokens so far decode to the rest of `fed`.
pub open spec fn enc_inv(e: EncoderState, fed: Seq<u8>, d0: Seq<u8>, h: Seq<bool>, window: u8, literal: u8) -> bool {
    let k = fed.len() - e.queue.len();
    &&& 0 <= k
    &&& e.queue == fed.skip(k)
    &&& e.window.len() == window_size(window)
    &&& 0 <= e.pos < e.window.len()
    &&& e.bits.len() >= 8
    &&& e.bits.take(8) == h
    &&& fits(fed, literal)
    &&& decodes_as(e.bits.skip(8), fed.take(k), d0, e, window, literal)
    &&& cuts_decode(e.bits.skip(8), fed.take(k), d0, window, literal)
}

proof fn lemma_inv_step(e: EncoderState, fed: Seq<u8>, d0: Seq<u8>, h: Seq<bool>, window: u8, literal: u8)
    requires
        valid_params(window as int, literal as int),
        enc_inv(e, fed, d0, h, window, literal),
        e.queue.len() > 0,
        e.queue.len() <= min_pattern_size_spec(window as int, literal as int) + 13,
    ensures
        encode_step(e, window, literal) matches Ok(e2) && enc_inv(e2, fed, d0, h, window, literal)
            && e2.queue.len() < e.queue.len(),
{
    let k = fed.len() - e.queue.len();
    assert forall|j: int| 0 <= j < e.queue.len() implies ((#[trigger] e.queue[j]) as u32) >> (
    literal as u32) == 0 by {
        assert(e.queue[j] == fed[k + j]);
    }
    lemma_step(e, window, literal);
    let e2 = encode_step(e, window, literal)->Ok_0;
    let kk = e.queue.len() - e2.queue.len();
    let tk = e2.bits.skip(e.bits.len() as int);
    let t = e.bits.skip(8);
    let c = fed.take(k);
    let q = e.queue.take(kk);
    assert(fed.skip(k).skip(kk) == fed.skip(k + kk));
    assert(e2.bits.take(8) == e.bits.take(8));
    assert(e2.bits.skip(8) == t + tk);
    assert(fed.take(k + kk) == c + q);
    assert forall|j: int, b: nat| 0 <= j <= (t + tk).len() implies {
        let d = #[trigger] decode_from(
            DecoderState { rest: (t + tk).take(j), buffered: b, window: d0, pos: 0 },
            window,
            literal,
        );
        d.1 is None && is_prefix(d.0, c + q)
    } by {
        let d = decode_from(
            DecoderState { rest: (t + tk).take(j), buffered: b, window: d0, pos: 0 },
            window,
            literal,
        );
        if j <= t.len() {
            assert((t + tk).take(j) == t.take(j));
            let d_old = decode_from(
                DecoderState { rest: t.take(j), buffered: b, window: d0, pos: 0 },
                window,
                literal,
            );
            assert(d_old.1 is None && is_prefix(d_old.0, c));
            assert(d == d_old);
            assert((c + q).take(d.0.len() as int) == c.take(d.0.len() as int));
        } else {
            let v = tk.take(j - t.len());
            assert((t + tk).take(j) == t + v);
            let b1 = after_read(b as int, t.len() as int);
            let s1 = DecoderState { rest: v, buffered: b1, window: e.window, pos: e.pos };
            let d1 = decode_from(s1, window, literal);
            assert(d == (c + d1.0, d1.1));
            if j - t.len() == tk.len() {
                assert(v == tk);
                assert(tk + Seq::<bool>::empty() == tk);
                let s2 = DecoderState {
                    rest: Seq::<bool>::empty(),
                    buffered: after_read(b1 as int, tk.len() as int),
                    window: e2.window,
                    pos: e2.pos,
                };
                assert(decode_token(
                    DecoderState { rest: tk + Seq::<bool>::empty(), buffered: b1, window: e.window, pos: e.pos },
                    window,
                    literal,
                ) == Token::Bytes(q, s2));
                lemma_token_end(s2, window, literal);
                assert(s1 == DecoderState {
                    rest: tk + Seq::<bool>::empty(),
                    buffered: b1,
                    window: e.window,
                    pos: e.pos,
                });
                assert(decode_from(s2, window, literal) == (Seq::<u8>::empty(), None::<TampError>));
                assert(d1 == (q + Seq::<u8>::empty(), None::<TampError>));
                assert(q + Seq::<u8>::empty() == q);
                assert((c + q).take((c + q).len() as int) == c + q);
            } else {
                assert(decode_token(s1, window, literal) is End);
                assert(d1.0 == Seq::<u8>::empty());
                assert(c + Seq::<u8>::empty() == c);
                assert((c + q).take(c.len() as int) == c);
            }
        }
    }
    assert forall|x: Seq<bool>, b: nat|
        #[trigger] decode_from(
            DecoderState { rest: (t + tk) + x, buffered: b, window: d0, pos: 0 },
            window,
            literal,
        ) == ((c + q) + decode_from(
            DecoderState {
                rest: x,
                buffered: after_read(b as int, (t + tk).len() as int),
                window: e2.window,
                pos: e2.pos,
            },
            window,
            literal,
        ).0, decode_from(
            DecoderState {
                rest: x,
                buffered: after_read(b as int, (t + tk).len() as int),
                window: e2.window,
                pos: e2.pos,
            },
            window,
            literal,
        ).1) by {
        assert((t + tk) + x == t + (tk + x));
        let b1 = after_read(b as int, t.len() as int);
        let s1 = DecoderState { rest: tk + x, buffered: b1, window: e.window, pos: e.pos };
        let s2 = DecoderState {
            rest: x,
            buffered: after_read(b1 as int, tk.len() as int),
            window: e2.window,
            pos: e2.pos,
        };
        assert(decode_from(
            DecoderState { rest: t + (tk + x), buffered: b, window: d0, pos: 0 },
            window,
            literal,
        ) == (c + decode_from(s1, window, literal).0, decode_from(s1, window, literal).1));
        assert(decode_token(s1, window, literal) == Token::Bytes(q, s2));
        lemma_after_read_adds(b as int, t.len() as int, tk.len() as int);
        let d2 = decode_from(s2, window, literal);
        assert(decode_from(s1, window, literal) == (q + d2.0, d2.1));
        assert(c + (q + d2.0) == (c + q) + d2.0);
    }
}

proof fn lemma_feed(e0: EncoderState, data: Seq<u8>, i: int, d0: Seq<u8>, h: Seq<bool>, window: u8, literal: u8)
    requires
        valid_params(window as int, literal as int),
        enc_inv(e0, Seq::empty(), d0, h, window, literal),
        e0.queue.len() == 0,
        fits(data, literal),
        0 <= i <= data.len(),
    ensures
        feed(e0, data.take(i), window, literal) matches Ok(e) && enc_inv(
            e,
            data.take(i),
            d0,
            h,
            window,
            literal,
        ) && e.queue.len() < min_pattern_size_spec(window as int, literal as int) + 13,
    decreases i,
{
    let pmax = min_pattern_size_spec(window as int, literal as int) + 13;
    if i == 0 {
        assert(data.take(0) == Seq::<u8>::empty());
    } else {
        lemma_feed(e0, data, i - 1, d0, h, window, literal);
        let fed0 = data.take(i - 1);
        let fed = data.take(i);
        let s = feed(e0, fed0, window, literal)->Ok_0;
        assert(fed.drop_last() == fed0);
        assert(fed.last() == data[i - 1]);
        let s1 = EncoderState { queue: s.queue.push(data[i - 1]), ..s };
        let k = fed0.len() - s.queue.len();
        assert(s1.queue == fed.skip(k));
        assert(fed.take(k) == fed0.take(k));
        assert(enc_inv(s1, fed, d0, h, window, literal));
        if s1.queue.len() >= pmax {
            lemma_inv_step(s1, fed, d0, h, window, literal);
        }
    }
}

proof fn lemma_drain(e: EncoderState, fed: Seq<u8>, d0: Seq<u8>, h: Seq<bool>, window: u8, literal: u8)
    requires
        valid_params(window as int, literal as int),
        enc_inv(e, fed, d0, h, window, literal),
        e.queue.len() <= min_pattern_size_spec(window as int, literal as int) + 13,
    ensures
        drain(e, window, literal) matches Ok(f) && enc_inv(f, fed, d0, h, window, literal)
            && f.queue.len() == 0,
    decreases e.queue.len(),
{
    if e.queue.len() > 0 {
        lemma_inv_step(e, fed, d0, h, window, literal);
        let e2 = encode_step(e, window, literal)->Ok_0;
        lemma_drain(e2, fed, d0, h, window, literal);
    }
}

proof fn lemma_initial(window: u8, literal: u8, dict: Option<Seq<u8>>)
    requires
        valid_params(window as int, literal as int),
        dict matches Some(d) ==> d.len() == window_size(window),
    ensures
        enc_inv(
            initial_state(window, literal, dict),
            Seq::empty(),
            initial_state(window, literal, dict).window,
            header_bits(window as int, literal as int, dict is Some),
            window,
            literal,
        ),
        initial_state(window, literal, dict).queue.len() == 0,
{
    let e0 = initial_state(window, literal, dict);
    let d0 = e0.window;
    let h = header_bits(window as int, literal as int, dict is Some);
    lemma_window_size(window);
    assert(h.len() == 8);
    assert(e0.bits.skip(8) == Seq::<bool>::empty());
    assert forall|x: Seq<bool>, b: nat|
        #[trigger] decode_from(
            DecoderState { rest: Seq::<bool>::empty() + x, buffered: b, window: d0, pos: 0 },
            window,
            literal,
        ) == (Seq::<u8>::empty() + decode_from(
            DecoderState {
                rest: x,
                buffered: after_read(b as int, Seq::<bool>::empty().len() as int),
                window: e0.window,
                pos: e0.pos,
            },
            window,
            literal,
        ).0, decode_from(
            DecoderState {
                rest: x,
                buffered: after_read(b as int, Seq::<bool>::empty().len() as int),
                window: e0.window,
                pos: e0.pos,
            },
            window,
            literal,
        ).1) by {
        assert(Seq::<bool>::empty() + x == x);
        let d = decode_from(DecoderState { rest: x, buffered: b, window: d0, pos: 0 }, window, literal);
        assert(Seq::<u8>::empty() + d.0 == d.0);
    }
    assert(Seq::<u8>::empty().take(0) == Seq::<u8>::empty());
    assert(Seq::<u8>::empty().skip(0) == Seq::<u8>::empty());
    assert(e0.bits.take(8) == h);
    let t = e0.bits.skip(8);
    assert forall|j: int, b: nat| 0 <= j <= t.len() implies {
        let d = #[trigger] decode_from(
            DecoderState { rest: t.take(j), buffered: b, window: d0, pos: 0 },
            window,
            literal,
        );
        d.1 is None && is_prefix(d.0, Seq::<u8>::empty().take(0))
    } by {
        let st = DecoderState { rest: t.take(j), buffered: b, window: d0, pos: 0 };
        lemma_token_end(st, window, literal);
    }
}

/// A stream that starts with the encoder's header gives back its parameters and dictionary.
proof fn lemma_open_stream(out: Seq<u8>, window: u8, literal: u8, dict: Option<Seq<u8>>)
    requires
        valid_params(window as int, literal as int),
        dict matches Some(d) ==> d.len() == window_size(window),
        out.len() > 0,
        bytes_bits(out).take(8) == header_bits(window as int, literal as int, dict is Some),
    ensures
        open_spec(out, dict) == Ok::<(u8, u8, DecoderState), TampError>(
            (
                window,
                literal,
                DecoderState {
                    rest: bytes_bits(out).skip(8),
                    buffered: 0,
                    window: initial_state(window, literal, dict).window,
                    pos: 0,
                },
            ),
        ),
{
    let bits = bytes_bits(out);
    lemma_bytes_bits_len(out);
    let hh = header_bits(window as int, literal as int, dict is Some);
    let f1 = field_bits((window - 8) as u32, 3);
    let f2 = field_bits((literal - 5) as u32, 2);
    assert(hh == f1 + f2 + seq![dict is Some, false, false]);
    assert forall|j: int| 0 <= j < 8 implies bits[j] == #[trigger] hh[j] by {
        assert(bits.take(8)[j] == bits[j]);
    }
    assert(hh[3] == f2[0] && hh[4] == f2[1]);
    assert(hh[5] == dict is Some && !hh[6] && !hh[7]);
    assert(bits.take(3) == f1);
    assert(bits.subrange(3, 5) == f2);
    lemma_small_fields((window - 8) as u32, (literal - 5) as u32, 0, 8, 0, 5);
    lemma_value_of_field((window - 8) as u32, 3);
    lemma_value_of_field((literal - 5) as u32, 2);
    assert(bits[5] == dict is Some && !bits[6] && !bits[7]);
}

/// Compressing bytes that fit the literal size, then decompressing the result with the same
/// dictionary, gives the bytes back: compression succeeds, and any byte sequence whose bits are
/// the compressed stream decompresses to the input.
pub proof fn lemma_round_trip(data: Seq<u8>, window: u8, literal: u8, dict: Option<Seq<u8>>, out: Seq<u8>)
    requires
        valid_params(window as int, literal as int),
        dict matches Some(d) ==> d.len() == window_size(window),
        forall|j: int| 0 <= j < data.len() ==> (data[j] as u32) < (1u32 << (literal as u32)),
    ensures
        compress_spec(data, window, literal, dict) is Ok,
        bytes_bits(out) == compress_spec(data, window, literal, dict)->Ok_0 ==> decompress_spec(
            out,
            dict,
        ) == Ok::<Seq<u8>, TampError>(data),
{
    let e0 = initial_state(window, literal, dict);
    let d0 = e0.window;
    let h = header_bits(window as int, literal as int, dict is Some);
    assert forall|j: int| 0 <= j < data.len() implies ((#[trigger] data[j]) as u32) >> (
    literal as u32) == 0 by {
        lemma_small_fields(0, 0, 0, 8, data[j] as u32, literal as u32);
    }
    lemma_initial(window, literal, dict);
    lemma_feed(e0, data, data.len() as int, d0, h, window, literal);
    assert(data.take(data.len() as int) == data);
    let e = feed(e0, data, window, literal)->Ok_0;
    lemma_drain(e, data, d0, h, window, literal);
    let f = drain(e, window, literal)->Ok_0;
    let bits = finish(f, false).bits;
    assert(compress_spec(data, window, literal, dict) == Ok::<Seq<bool>, TampError>(bits));
    assert(data.take(data.len() as int) == data);
    if bytes_bits(out) == bits {
        let t = f.bits.skip(8);
        let z = bits.skip(f.bits.len() as int);
        assert(f.bits + Seq::<bool>::empty() == f.bits);
        assert(bits == f.bits + z);
        assert(f.bits == h + t);
        assert(bits.skip(8) == t + z);
        assert(bits.take(8) == f.bits.take(8));
        lemma_open_stream(out, window, literal, dict);
        lemma_decode_padding(z, after_read(0, t.len() as int), f.window, f.pos, window, literal);
        let st = DecoderState { rest: t + z, buffered: 0, window: d0, pos: 0 };
        assert(decode_from(st, window, literal) == (data + Seq::<u8>::empty(), None::<TampError>));
        assert(data + Seq::<u8>::empty() == data);
    }
}

/// A compressed stream of at least two bytes, cut short by its last byte, decompresses without
/// error to a prefix of the input: the bytes of the tokens that lie wholly in what is left.
pub proof fn lemma_truncated(data: Seq<u8>, window: u8, literal: u8, dict: Option<Seq<u8>>, out: Seq<u8>)
    requires
        valid_params(window as int, literal as int),
        dict matches Some(d) ==> d.len() == window_size(window),
        forall|j: int| 0 <= j < data.len() ==> (data[j] as u32) < (1u32 << (literal as u32)),
        bytes_bits(out) == compress_spec(data, window, literal, dict)->Ok_0,
        out.len() >= 2,
    ensures
        decompress_spec(out.drop_last(), dict) matches Ok(p) && is_prefix(p, data),
{
    let e0 = initial_state(window, literal, dict);
    let d0 = e0.window;
    let h = header_bits(window as int, literal as int, dict is Some);
    assert forall|j: int| 0 <= j < data.len() implies ((#[trigger] data[j]) as u32) >> (
    literal as u32) == 0 by {
        lemma_small_fields(0, 0, 0, 8, data[j] as u32, literal as u32);
    }
    lemma_initial(window, literal, dict);
    lemma_feed(e0, data, data.len() as int, d0, h, window, literal);
    assert(data.take(data.len() as int) == data);
    let e = feed(e0, data, window, literal)->Ok_0;
    lemma_drain(e, data, d0, h, window, literal);
    let f = drain(e, window, literal)->Ok_0;
    let bits = finish(f, false).bits;
    assert(compress_spec(data, window, literal, dict) == Ok::<Seq<bool>, TampError>(bits));
    let t = f.bits.skip(8);
    let z = bits.skip(f.bits.len() as int);
    assert(f.bits + Seq::<bool>::empty() == f.bits);
    assert(bits == f.bits + z);
    assert(z.len() < 8);
    assert(f.bits == h + t);
    let cut = out.drop_last();
    assert(bytes_bits(out) == bytes_bits(cut) + byte_bits(out.last()));
    lemma_bytes_bits_len(cut);
    let n = bytes_bits(cut).len() as int;
    assert(bytes_bits(cut) == bits.take(n));
    assert(n >= 8);
    assert(bytes_bits(cut).take(8) == h);
    lemma_open_stream(cut, window, literal, dict);
    let jj = n - 8;
    assert(0 <= jj <= t.len());
    assert(bytes_bits(cut).skip(8) == t.take(jj));
    let d = decode_from(DecoderState { rest: t.take(jj), buffered: 0, window: d0, pos: 0 }, window, literal);
    assert(d.1 is None && is_prefix(d.0, data));
}

} // verus!
