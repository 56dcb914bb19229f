use tamp::bit_reader::BitReader;
use tamp::bit_writer::BitWriter;
use tamp::common::{tamp_compute_min_pattern_size, tamp_initialize_dictionary};
use tamp::decompressor::TextDecompressor;
use tamp::compressor::{compress, CompressInput};
use tamp::error::TampError;
use tamp::huffman::{huffman_code, huffman_lookup, FLUSH_INDEX, FLUSH_MARKER};
use tamp::ring_buffer::RingBuffer;

#[test]
fn dictionary_seed_prefix() {
    let mut d = [0u8; 16];
    tamp_initialize_dictionary(&mut d);
    assert_eq!(
        d,
        [
            0x00, 0x2e, 0x2f, 0x2f, 0x72, 0x2e, 0x30, 0x2e, 0x20, 0x74, 0x3e, 0x0a, 0x2f, 0x3e,
            0x73, 0x6e
        ]
    );
}

#[test]
fn min_pattern_size_values() {
    assert_eq!(tamp_compute_min_pattern_size(10, 5), 2);
    assert_eq!(tamp_compute_min_pattern_size(11, 5), 3);
    assert_eq!(tamp_compute_min_pattern_size(12, 6), 2);
    assert_eq!(tamp_compute_min_pattern_size(13, 6), 3);
    assert_eq!(tamp_compute_min_pattern_size(15, 8), 2);
}

#[test]
fn bit_writer_packs_msb_first() {
    let mut w = BitWriter::new();
    assert_eq!(w.write(0b101, 3, false), 0);
    assert_eq!(w.get_bit_pos(), 3);
    assert_eq!(w.get_buffer(), 0b101 << 29);
    assert_eq!(w.write(0b11111, 5, true), 1);
    assert_eq!(w.output(), &[0b1011_1111]);
    assert_eq!(w.write(0b1, 1, true), 0);
    assert_eq!(w.flush(true), 2);
    // 1 then the FLUSH code 0_1010_1011, padded
    assert_eq!(w.output(), &[0b1011_1111, 0b1010_1010, 0b1100_0000]);
    assert_eq!(w.close(), vec![0b1011_1111, 0b1010_1010, 0b1100_0000]);
}

#[test]
fn bit_writer_huffman_codes() {
    let mut w = BitWriter::new();
    w.write_huffman(13);
    w.write_huffman(0);
    w.flush(false);
    // 0100111 then 00, padded
    assert_eq!(w.close(), vec![0b0100_1110, 0b0000_0000]);
}

#[test]
fn bit_reader_reads_fields() {
    let mut r = BitReader::new(vec![0xa5, 0x0f]);
    assert_eq!(r.read(4), Ok(0xa));
    assert_eq!(r.read(8), Ok(0x50));
    assert_eq!(r.len(), 4);
    assert_eq!(r.read(5), Err(TampError::UnexpectedEndOfStream));
    assert_eq!(r.read(4), Ok(0xf));
    assert_eq!(r.read(1), Err(TampError::UnexpectedEndOfStream));
}

#[test]
fn bit_reader_backup_restore() {
    let mut r = BitReader::new(vec![0b1100_1010, 0b0101_0101, 0xff]);
    assert_eq!(r.read(3), Ok(0b110));
    r.backup();
    assert_eq!(r.read(12), Ok(0b0_1010_0101_010));
    r.restore();
    assert_eq!(r.read(5), Ok(0b01010));
    r.clear();
    assert_eq!(r.read(8), Ok(0xff));
}

#[test]
fn bit_reader_huffman() {
    // codes after the flag bit: 11 (index 1), 0 (index 0), 1010_1011 (FLUSH), 100_111
    // (index 13), 1001_0101 (index 11)
    let mut r = BitReader::new(vec![0b1101_0101, 0b0111_0011, 0b1100_1010, 0b1000_0000]);
    assert_eq!(r.read_huffman(), Ok(1));
    assert_eq!(r.read_huffman(), Ok(0));
    assert_eq!(r.read_huffman(), Ok(FLUSH_MARKER));
    assert_eq!(r.read_huffman(), Ok(13));
    assert_eq!(r.read_huffman(), Ok(11));
    let mut short = BitReader::new(vec![0b1010_1010]);
    assert_eq!(short.read_huffman(), Ok(12));
    assert_eq!(short.read_huffman(), Err(TampError::UnexpectedEndOfStream));
}

#[test]
fn huffman_table_entries() {
    assert_eq!(huffman_code(0), (0x00, 2));
    assert_eq!(huffman_code(13), (0x27, 7));
    assert_eq!(huffman_code(FLUSH_INDEX), (0xab, 9));
    assert_eq!(huffman_lookup(0x95), Some(11));
    assert_eq!(huffman_lookup(0xab), Some(FLUSH_MARKER));
    assert_eq!(huffman_lookup(0x01), None);
}

#[test]
fn ring_buffer_search_and_wrap() {
    let mut rb = RingBuffer::new(vec![1, 2, 3, 4]);
    assert_eq!(rb.index(&[3, 4], 0), Some(2));
    assert_eq!(rb.index(&[4, 1], 0), None);
    assert_eq!(rb.index(&[4, 1], 2), Some(3));
    assert_eq!(rb.index(&[2], 3), Some(1));
    assert_eq!(rb.index(&[], 0), None);
    assert_eq!(rb.index(&[1, 2, 3, 4, 1], 0), None);
    rb.write_bytes(&[9, 8, 7, 6, 5]);
    assert_eq!(rb.buffer, vec![5, 8, 7, 6]);
    assert_eq!(rb.pos, 1);
    assert_eq!(rb.index(&[6, 5], 0), None);
    assert_eq!(rb.index(&[6, 5], 1), Some(3));
    rb.write_byte(0);
    assert_eq!(rb.index(&[0], 1), Some(1));
}

#[test]
fn text_decompressor_reads_text() {
    let compressed = compress(CompressInput::Str("hello, hello, hello"), 10, 8, None).unwrap();
    let mut t = TextDecompressor::new(compressed.clone(), None).unwrap();
    assert_eq!(t.read_to_string(Some(5)).unwrap(), "hello");
    assert_eq!(t.read_to_string(None).unwrap(), ", hello, hello");
    let bad = compress(CompressInput::Bytes(&[0xff, 0xfe]), 10, 8, None).unwrap();
    let mut t = TextDecompressor::new(bad, None).unwrap();
    assert_eq!(t.read_to_string(None), Err(TampError::InvalidText));
}

#[test]
fn bit_writer_wide_write_and_full_flush() {
    let mut w = BitWriter::new();
    assert_eq!(w.get_buffer(), 0);
    assert_eq!(w.write(0x7fff_fffe, 31, false), 0);
    assert_eq!(w.get_bit_pos(), 31);
    assert_eq!(w.write(1, 1, false), 0);
    assert_eq!(w.get_bit_pos(), 32);
    assert_eq!(w.flush(false), 4);
    assert_eq!(w.get_buffer(), 0);
    assert_eq!(w.get_bit_pos(), 0);
    assert_eq!(w.flush(true), 0);
    assert_eq!(w.output(), &[0xff, 0xff, 0xff, 0xfd]);
}

#[test]
fn bit_reader_failed_read_keeps_bits() {
    let mut r = BitReader::new(vec![0xab, 0xcd]);
    assert_eq!(r.read(4), Ok(0xa));
    assert_eq!(r.read(20), Err(TampError::UnexpectedEndOfStream));
    assert_eq!(r.len(), 12);
    assert_eq!(r.read(12), Ok(0xbcd));
}
