//! The fixed length-code table.
use vstd::prelude::*;

verus! {

/// Index of the FLUSH marker among the length codes.
pub const FLUSH_INDEX: u8 = 14;

/// The marker that a decoder reports for FLUSH.
pub const FLUSH_MARKER: u8 = 255;

/// Code of each pattern-length index, FLUSH last, as the number its bits spell. Each code
/// begins with the pattern flag bit 0.
pub open spec fn code_value(i: int) -> nat {
    if i == 0 {
        0x00
    } else if i == 1 {
        0x03
    } else if i == 2 {
        0x08
    } else if i == 3 {
        0x0b
    } else if i == 4 {
        0x14
    } else if i == 5 {
        0x24
    } else if i == 6 {
        0x26
    } else if i == 7 {
        0x2b
    } else if i == 8 {
        0x4b
    } else if i == 9 {
        0x54
    } else if i == 10 {
        0x94
    } else if i == 11 {
        0x95
    } else if i == 12 {
        0xaa
    } else if i == 13 {
        0x27
    } else {
        0xab
    }
}

/// Bit length of each code, the flag bit included.
pub open spec fn code_len(i: int) -> nat {
    if i == 0 {
        2
    } else if i == 1 {
        3
    } else if i == 2 {
        5
    } else if i == 3 {
        5
    } else if i == 4 {
        6
    } else if i == 5 {
        7
    } else if i == 6 {
        7
    } else if i == 7 {
        7
    } else if i == 8 {
        8
    } else if i == 9 {
        8
    } else if i == 10 {
        9
    } else if i == 11 {
        9
    } else if i == 12 {
        9
    } else if i == 13 {
        7
    } else {
        9
    }
}

/// `2^n`, for the bit lengths that codes have.
pub open spec fn pow2(n: nat) -> nat {
    if n == 0 {
        1
    } else if n == 1 {
        2
    } else if n == 2 {
        4
    } else if n == 3 {
        8
    } else if n == 4 {
        16
    } else if n == 5 {
        32
    } else if n == 6 {
        64
    } else if n == 7 {
        128
    } else if n == 8 {
        256
    } else {
        512
    }
}

/// The bits of code `i` begin with those of code `j`: dropping the extra low bits of code
/// `i` leaves code `j`.
pub open spec fn code_extends(i: int, j: int) -> bool {
    let p = pow2((code_len(i) - code_len(j)) as nat);
    code_len(j) <= code_len(i) && code_value(j) * p <= code_value(i) < (code_value(j) + 1) * p
}

/// What a decoder reports for the code bits read after the flag bit that spell `v`: the
/// length index, FLUSH_MARKER for FLUSH, or nothing when `v` is no code.
pub open spec fn lookup_spec(v: nat) -> Option<u8> {
    if v == 0x00 {
        Some(0u8)
    } else if v == 0x03 {
        Some(1u8)
    } else if v == 0x08 {
        Some(2u8)
    } else if v == 0x0b {
        Some(3u8)
    } else if v == 0x14 {
        Some(4u8)
    } else if v == 0x24 {
        Some(5u8)
    } else if v == 0x26 {
        Some(6u8)
    } else if v == 0x2b {
        Some(7u8)
    } else if v == 0x4b {
        Some(8u8)
    } else if v == 0x54 {
        Some(9u8)
    } else if v == 0x94 {
        Some(10u8)
    } else if v == 0x95 {
        Some(11u8)
    } else if v == 0xaa {
        Some(12u8)
    } else if v == 0x27 {
        Some(13u8)
    } else if v == 0xab {
        Some(FLUSH_MARKER)
    } else {
        None
    }
}

/// The length codes, FLUSH included, are prefix-free: no code's bits begin with another's.
pub proof fn lemma_prefix_free()
    ensures
        forall|i: int, j: int|
            0 <= i < 15 && 0 <= j < 15 && i != j ==> !#[trigger] code_extends(i, j),
{
    assert forall|i: int, j: int| 0 <= i < 15 && 0 <= j < 15 && i != j implies !#[trigger] code_extends(
        i,
        j,
    ) by {
        assert(i == 0 || i == 1 || i == 2 || i == 3 || i == 4 || i == 5 || i == 6 || i == 7 || i
            == 8 || i == 9 || i == 10 || i == 11 || i == 12 || i == 13 || i == 14);
        assert(j == 0 || j == 1 || j == 2 || j == 3 || j == 4 || j == 5 || j == 6 || j == 7 || j
            == 8 || j == 9 || j == 10 || j == 11 || j == 12 || j == 13 || j == 14);
    }
}

/// Code and bit length of pattern-length index `i` (FLUSH at FLUSH_INDEX).
pub fn huffman_code(i: u8) -> (r: (u32, u8))
    requires
        i <= FLUSH_INDEX,
    ensures
        r.0 == code_value(i as int),
        r.0 < pow2(code_len(i as int)),
        r.1 == code_len(i as int),
{
    let codes: [u32; 15] = [
        0x00, 0x03, 0x08, 0x0b, 0x14, 0x24, 0x26, 0x2b, 0x4b, 0x54, 0x94, 0x95, 0xaa, 0x27, 0xab,
    ];
    let lens: [u8; 15] = [2, 3, 5, 5, 6, 7, 7, 7, 8, 8, 9, 9, 9, 7, 9];
    (codes[i as usize], lens[i as usize])
}

/// Looks up the code bits that spell `v`.
pub fn huffman_lookup(v: u32) -> (r: Option<u8>)
    ensures
        r == lookup_spec(v as nat),
{
    match v {
        0x00 => Some(0),
        0x03 => Some(1),
        0x08 => Some(2),
        0x0b => Some(3),
        0x14 => Some(4),
        0x24 => Some(5),
        0x26 => Some(6),
        0x2b => Some(7),
        0x4b => Some(8),
        0x54 => Some(9),
        0x94 => Some(10),
        0x95 => Some(11),
        0xaa => Some(12),
        0x27 => Some(13),
        0xab => Some(FLUSH_MARKER),
        _ => None,
    }
}

} // verus!
