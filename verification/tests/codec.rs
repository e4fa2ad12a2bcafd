use chunkstream::{calc_dc_size, decode_stream, encode_stream, write_chunk, DSError, BLOCKSIZE};

/// Reads one unsigned LEB128 integer from `s` at `*pos`, advancing past it.
fn read_varint_raw(s: &[u8], pos: &mut usize) -> u64 {
    let mut shift = 0u32;
    let mut val = 0u64;
    loop {
        let b = s[*pos];
        *pos += 1;
        val |= ((b & 0x7f) as u64) << shift;
        if b & 0x80 == 0 {
            return val;
        }
        shift += 7;
    }
}

/// Walks an encoder-produced stream chunk by chunk, returning each chunk's
/// declared original length.
fn chunk_original_lengths(s: &[u8]) -> Vec<u64> {
    let mut lengths = Vec::new();
    let mut pos = 0usize;
    while pos < s.len() {
        let flags = read_varint_raw(s, &mut pos);
        let olen = read_varint_raw(s, &mut pos);
        let framed = if flags & 0x01 == 0x01 {
            read_varint_raw(s, &mut pos)
        } else {
            olen
        };
        pos += framed as usize;
        lengths.push(olen);
    }
    lengths
}

fn sample(len: usize) -> Vec<u8> {
    let mut v = Vec::with_capacity(len);
    for i in 0..len {
        v.push((i % 251) as u8);
    }
    v
}

#[test]
fn round_trip_small() {
    let input = b"the quick brown fox jumps over the lazy dog".to_vec();
    let stream = encode_stream(&input).unwrap();
    let output = decode_stream(&stream, input.len()).unwrap();
    assert_eq!(output, input);
}

#[test]
fn round_trip_empty() {
    let stream = encode_stream(&[]).unwrap();
    assert_eq!(stream, Vec::<u8>::new());
    let output = decode_stream(&[], 0).unwrap();
    assert_eq!(output, Vec::<u8>::new());
}

#[test]
fn round_trip_two_chunks() {
    let input = sample(BLOCKSIZE + 1);
    let stream = encode_stream(&input).unwrap();
    let output = decode_stream(&stream, input.len()).unwrap();
    assert_eq!(output, input);
}

#[test]
fn encode_twice_same_stream() {
    let input = sample(70_000);
    let s1 = encode_stream(&input).unwrap();
    let s2 = encode_stream(&input).unwrap();
    assert_eq!(s1, s2);
    let o1 = decode_stream(&s1, input.len()).unwrap();
    let o2 = decode_stream(&s2, input.len()).unwrap();
    assert_eq!(o1, o2);
    assert_eq!(o1, input);
}

#[test]
fn blocksize_input_is_one_chunk() {
    let input = sample(BLOCKSIZE);
    let stream = encode_stream(&input).unwrap();
    let lengths = chunk_original_lengths(&stream);
    assert_eq!(lengths, vec![BLOCKSIZE as u64]);
}

#[test]
fn blocksize_plus_one_is_two_chunks() {
    let input = sample(BLOCKSIZE + 1);
    let stream = encode_stream(&input).unwrap();
    let lengths = chunk_original_lengths(&stream);
    assert_eq!(lengths, vec![BLOCKSIZE as u64, 1]);
}

#[test]
fn max_output_boundary() {
    let input = sample(100);
    let stream = encode_stream(&input).unwrap();
    let refused = decode_stream(&stream, 99);
    assert!(matches!(refused, Err(DSError::Overflow(100, 99))));
    let accepted = decode_stream(&stream, 100).unwrap();
    assert_eq!(accepted, input);
}

#[test]
fn truncated_first_varint() {
    let stream = [0x80u8];
    let r = decode_stream(&stream, 1024);
    assert!(matches!(r, Err(DSError::VarintFail)));
}

#[test]
fn truncated_second_varint() {
    let stream = [0x01u8, 0x80];
    let r = decode_stream(&stream, 1024);
    assert!(matches!(r, Err(DSError::VarintFail)));
}

#[test]
fn overlong_varint_fails() {
    // ten continuation groups pushing the value past 64 bits
    let stream = [0xFFu8, 0xFF, 0xFF, 0xFF, 0xFF, 0xFF, 0xFF, 0xFF, 0xFF, 0x02];
    let r = decode_stream(&stream, 1024);
    assert!(matches!(r, Err(DSError::VarintFail)));
}

#[test]
fn declared_length_beyond_input() {
    // compressed chunk claiming 100 payload bytes with only 3 present
    let stream = [0x01u8, 0x05, 0x64, 0x01, 0x02, 0x03];
    let r = decode_stream(&stream, 1024);
    assert!(matches!(r, Err(DSError::CorruptedOverflow)));
}

#[test]
fn corrupt_compressed_payload() {
    // compressed chunk declaring one original byte with an empty payload:
    // the decompressor has nothing to read and rejects it
    let stream = [0x01u8, 0x01, 0x00];
    let r = decode_stream(&stream, 1024);
    assert!(matches!(r, Err(DSError::LZ4(_))));
}

#[test]
fn decompressed_length_mismatch() {
    // a valid compressed block of zero bytes framed as one original byte:
    // decompression succeeds but fills 0 of the declared 1
    let comp = lz4_flex::block::compress(&[]);
    let mut stream = vec![0x01u8, 0x01, comp.len() as u8];
    stream.extend_from_slice(&comp);
    let r = decode_stream(&stream, 1024);
    assert!(matches!(r, Err(DSError::CorruptedOverflow)));
}

#[test]
fn uncompressed_chunk_round_trip() {
    let stream = [0x00u8, 0x03, b'a', b'b', b'c'];
    let out = decode_stream(&stream, 3).unwrap();
    assert_eq!(out, b"abc".to_vec());
}

#[test]
fn unknown_flag_bits_are_ignored() {
    // bit 2 is unrecognized; bit 0 is clear, so the payload is verbatim
    let stream = [0x04u8, 0x02, b'x', b'y'];
    let out = decode_stream(&stream, 2).unwrap();
    assert_eq!(out, b"xy".to_vec());
}

#[test]
fn zero_length_chunk() {
    let stream = [0x00u8, 0x00];
    let out = decode_stream(&stream, 0).unwrap();
    assert_eq!(out, Vec::<u8>::new());
}

#[test]
fn calc_size_totals_all_chunks() {
    let input = sample(BLOCKSIZE + 700);
    let stream = encode_stream(&input).unwrap();
    let total = calc_dc_size(&stream).unwrap();
    assert_eq!(total, input.len());
}

#[test]
fn calc_size_empty_stream() {
    let total = calc_dc_size(&[]).unwrap();
    assert_eq!(total, 0);
}

#[test]
fn write_chunk_frames_compressed_block() {
    let input = b"aaaaaaaaaaaaaaaaaaaaaaaaaaaaaaaaaaaaaaaa";
    let mut stream = Vec::new();
    write_chunk(&mut stream, input);
    let mut pos = 0usize;
    let flags = read_varint_raw(&stream, &mut pos);
    assert_eq!(flags, 0x01);
    let olen = read_varint_raw(&stream, &mut pos);
    assert_eq!(olen, input.len() as u64);
    let clen = read_varint_raw(&stream, &mut pos);
    assert_eq!(pos + clen as usize, stream.len());
    assert_eq!(&stream[pos..], lz4_flex::block::compress(input).as_slice());
    let out = decode_stream(&stream, input.len()).unwrap();
    assert_eq!(out, input.to_vec());
}
