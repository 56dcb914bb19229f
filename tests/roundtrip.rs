use tamp::compressor::{compress, CompressInput, Compressor, TextCompressor};
use tamp::decompressor::{decompress, Decompressor};
use tamp::error::TampError;

#[test]
fn test_cyclic_small() {
    // Compress sample data, decompress it, and check that the input comes back
    let data: Vec<u8> = b"Hello, world!".to_vec();
    let compressed = compress(CompressInput::Bytes(&data), 10, 8, None).unwrap();
    let decompressed = decompress(&compressed, None).unwrap();
    assert_eq!(data, decompressed);
}

#[test]
fn test_cyclic_large() {
    // Compress sample data, decompress it, and check that the input comes back
    let data: Vec<u8> = b"A".repeat(1000).into();
    let compressed = compress(CompressInput::Bytes(&data), 10, 8, None).unwrap();
    let decompressed = decompress(&compressed, None).unwrap();
    assert_eq!(data, decompressed);
}

#[test]
fn repeated_bytes_compress_well() {
    // Patterns are at most 15 bytes long here, so each costs 17 bits at best.
    let data: Vec<u8> = b"A".repeat(1000).into();
    let compressed = compress(CompressInput::Bytes(&data), 10, 8, None).unwrap();
    assert!(compressed.len() < 160, "{} bytes", compressed.len());
    assert!(compressed.len() > 125, "{} bytes", compressed.len());
}

#[test]
fn empty_input_is_header_and_pad() {
    for window in 8u8..=15 {
        for literal in 5u8..=8 {
            let compressed = compress(CompressInput::Bytes(&[]), window, literal, None).unwrap();
            let header = ((window - 8) << 5) | ((literal - 5) << 3);
            assert_eq!(compressed, vec![header]);
            assert_eq!(decompress(&compressed, None).unwrap(), Vec::<u8>::new());
        }
    }
}

#[test]
fn byte_above_literal_size_is_rejected() {
    for literal in 5u8..=7 {
        for b in (1u16 << literal)..=255 {
            let r = compress(CompressInput::Bytes(&[b as u8]), 10, literal, None);
            assert_eq!(r, Err(TampError::ExcessBits));
        }
    }
}

#[test]
fn truncated_stream_yields_whole_tokens() {
    let data: Vec<u8> = b"Hello, world! Hello, world!".to_vec();
    let compressed = compress(CompressInput::Bytes(&data), 10, 8, None).unwrap();
    let truncated = &compressed[..compressed.len() - 1];
    let out = decompress(truncated, None).unwrap();
    assert!(out.len() < data.len());
    assert_eq!(&data[..out.len()], &out[..]);
}

#[test]
fn reserved_header_bit_is_unsupported() {
    let compressed = compress(CompressInput::Bytes(b"abc"), 10, 8, None).unwrap();
    let mut bad = compressed.clone();
    bad[0] |= 0b0000_0010;
    assert_eq!(decompress(&bad, None), Err(TampError::UnsupportedHeader));
    let mut more = compressed.clone();
    more[0] |= 0b0000_0001;
    assert_eq!(decompress(&more, None), Err(TampError::UnsupportedHeader));
}

#[test]
fn single_literal_stream() {
    // header 010 11 0 0 0 (window 10, literal 8, no dictionary), then 1 and 0x20 in 8 bits,
    // padded
    let compressed = compress(CompressInput::Bytes(&[0x20]), 10, 8, None).unwrap();
    assert_eq!(compressed, vec![0b0101_1000, 0b1001_0000, 0b0000_0000]);
    assert_eq!(decompress(&compressed, None).unwrap(), vec![0x20]);
}

#[test]
fn invalid_parameters_are_rejected() {
    assert_eq!(compress(CompressInput::Bytes(b"x"), 7, 8, None), Err(TampError::InvalidParameter));
    assert_eq!(compress(CompressInput::Bytes(b"x"), 16, 8, None), Err(TampError::InvalidParameter));
    assert_eq!(compress(CompressInput::Bytes(b"x"), 10, 4, None), Err(TampError::InvalidParameter));
    assert_eq!(compress(CompressInput::Bytes(b"x"), 10, 9, None), Err(TampError::InvalidParameter));
    assert_eq!(
        compress(CompressInput::Bytes(b"x"), 10, 8, Some(vec![0u8; 100])),
        Err(TampError::InvalidParameter)
    );
    assert!(Compressor::new(8, 5, Some(vec![0u8; 256])).is_ok());
}

#[test]
fn custom_dictionary_round_trip() {
    let dict: Vec<u8> = (0..1024u32).map(|i| (i % 251) as u8).collect();
    let data: Vec<u8> = (0..300u32).map(|i| (i % 7) as u8 * 3).collect();
    let compressed = compress(CompressInput::Bytes(&data), 10, 8, Some(dict.clone())).unwrap();
    assert_eq!(compressed[0] & 0b0000_0100, 0b0000_0100);
    assert_eq!(decompress(&compressed, None), Err(TampError::DictionaryRequired));
    assert_eq!(decompress(&compressed, Some(vec![0u8; 10])), Err(TampError::InvalidParameter));
    assert_eq!(decompress(&compressed, Some(dict)).unwrap(), data);
}

#[test]
fn empty_source_is_end_of_stream() {
    assert_eq!(decompress(&[], None), Err(TampError::UnexpectedEndOfStream));
}

#[test]
fn round_trip_all_parameters() {
    let text = b"It was the best of times, it was the worst of times, it was the age of wisdom.";
    for window in 8u8..=15 {
        for literal in 7u8..=8 {
            let data: Vec<u8> = text.iter().map(|b| b & 0x7f).collect();
            let compressed = compress(CompressInput::Bytes(&data), window, literal, None).unwrap();
            assert_eq!(decompress(&compressed, None).unwrap(), data);
        }
    }
    let small: Vec<u8> = (0..500u32).map(|i| (i * i % 31) as u8).collect();
    let compressed = compress(CompressInput::Bytes(&small), 9, 5, None).unwrap();
    assert_eq!(decompress(&compressed, None).unwrap(), small);
}

#[test]
fn streaming_flush_with_token_round_trips() {
    let mut c = Compressor::new(10, 8, None).unwrap();
    c.write(b"abcabcabc").unwrap();
    c.flush(true).unwrap();
    c.write(b"xyzxyz").unwrap();
    let out = c.close().unwrap();
    assert_eq!(decompress(&out, None).unwrap(), b"abcabcabcxyzxyz".to_vec());
}

#[test]
fn text_input_matches_bytes() {
    let a = compress(CompressInput::Str("hello hello"), 10, 8, None).unwrap();
    let b = compress(CompressInput::Bytes(b"hello hello"), 10, 8, None).unwrap();
    assert_eq!(a, b);
    let mut t = TextCompressor::new(10, 8, None).unwrap();
    t.write("hello hello").unwrap();
    assert_eq!(t.close().unwrap(), b);
}

#[test]
fn read_into_small_buffers() {
    let data: Vec<u8> = b"abababababababababababab".to_vec();
    let compressed = compress(CompressInput::Bytes(&data), 10, 8, None).unwrap();
    let mut d = Decompressor::new(compressed, None).unwrap();
    let mut out = Vec::new();
    let mut chunk = [0u8; 3];
    loop {
        let n = d.read_into(&mut chunk).unwrap();
        if n == 0 {
            break;
        }
        out.extend_from_slice(&chunk[..n]);
    }
    assert_eq!(out, data);
}

#[test]
fn exhausted_decoder_leaves_buffer_alone() {
    let compressed = compress(CompressInput::Bytes(b"xyz"), 10, 8, None).unwrap();
    let mut d = Decompressor::new(compressed, None).unwrap();
    let mut buf = [7u8; 5];
    assert_eq!(d.read_into(&mut buf).unwrap(), 3);
    assert_eq!(buf, [b'x', b'y', b'z', 7, 7]);
    let mut again = [9u8; 4];
    assert_eq!(d.read_into(&mut again).unwrap(), 0);
    assert_eq!(again, [9u8; 4]);
    assert_eq!(d.read_into(&mut again).unwrap(), 0);
}
