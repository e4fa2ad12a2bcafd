//! The ghost model of the framing format.  A stream is a sequence of chunks
//! laid end to end with no padding and no trailing marker:
//!
//! `chunk := flags:varint original_length:varint [compressed_length:varint] payload`
//!
//! `compressed_length` is present exactly when the `Compressed` flag bit is
//! set, and the payload's on-wire length is `compressed_length` when present,
//! else `original_length`.  The two decode passes — the size calculation and
//! the fill — and the encoder are each given a spec function here, and the
//! executable code in the crate root is proved against them.

use crate::compressor::{lz4_block_of, lz4_unpacked_of};
use crate::varint::{lemma_varint_roundtrip, lemma_varint_value_len, varint_bytes, varint_value};
use crate::BLOCKSIZE;
use vstd::prelude::*;

verus! {

/// Flag bit: the chunk's payload is a compressed block.
pub const FLAG_COMPRESSED: u64 = 0x01;

/// Flag bit: reserved by the wire format; never set by this encoder,
/// ignored by the decoder, as every unrecognized bit is.
pub const FLAG_PASSES: u64 = 0x02;

/// Whether a chunk's flags mark its payload as compressed.  All other bits
/// are ignored, never rejected.
pub open spec fn is_compressed(flags: u64) -> bool {
    flags & FLAG_COMPRESSED == FLAG_COMPRESSED
}

/// One decoded chunk header: the flags, the declared decompressed length,
/// the payload's on-wire length, and the header's own byte count.
pub struct Header {
    pub flags: u64,
    pub original_len: u64,
    pub framed_len: u64,
    pub header_len: int,
}

/// Reads the chunk header at the front of `s`, or `None` when a header
/// integer is truncated or out of range.
pub open spec fn parse_header(s: Seq<u8>) -> Option<Header> {
    match varint_value(s) {
        None => None,
        Some((flags, n1)) => match varint_value(s.skip(n1)) {
            None => None,
            Some((olen, n2)) => if is_compressed(flags) {
                match varint_value(s.skip(n1 + n2)) {
                    None => None,
                    Some((clen, n3)) => Some(
                        Header {
                            flags,
                            original_len: olen,
                            framed_len: clen,
                            header_len: n1 + n2 + n3,
                        },
                    ),
                }
            } else {
                Some(Header { flags, original_len: olen, framed_len: olen, header_len: n1 + n2 })
            },
        },
    }
}

/// A parsed header occupies at least two bytes and lies within `s`.
pub proof fn lemma_parse_header_len(s: Seq<u8>)
    ensures
        parse_header(s) matches Some(h) ==> 2 <= h.header_len <= s.len(),
{
    lemma_varint_value_len(s);
    match varint_value(s) {
        None => {},
        Some((flags, n1)) => {
            lemma_varint_value_len(s.skip(n1));
            match varint_value(s.skip(n1)) {
                None => {},
                Some((olen, n2)) => {
                    lemma_varint_value_len(s.skip(n1 + n2));
                },
            }
        },
    }
}

/// The ways a decode pass rejects a stream.
pub enum WireError {
    /// A header integer was truncated or does not fit 64 bits.
    VarintFail,
    /// A declared length exceeds the remaining input, the remaining output
    /// space, or the running size total wrapped.
    Overflow,
    /// The computed output size `.0` exceeds the caller's ceiling `.1`.
    TooBig(int, int),
    /// The block decompressor rejected a payload as corrupt.
    Lz4Fail,
}

/// The size-calculation pass from an accumulated total of `acc`: walks the
/// framed stream without touching payload bytes, sums the declared original
/// lengths, and rejects a stream whose framed payload overruns the
/// remaining input or whose total overruns `usize`.
pub open spec fn size_pass(s: Seq<u8>, acc: int) -> Result<int, WireError>
    decreases s.len(),
    via size_pass_decreases
{
    if s.len() == 0 {
        Ok(acc)
    } else {
        match parse_header(s) {
            None => Err(WireError::VarintFail),
            Some(h) => if h.framed_len > s.len() - h.header_len {
                Err(WireError::Overflow)
            } else if acc + h.original_len > usize::MAX {
                Err(WireError::Overflow)
            } else {
                size_pass(s.skip(h.header_len + h.framed_len), acc + h.original_len)
            },
        }
    }
}

#[via_fn]
proof fn size_pass_decreases(s: Seq<u8>, acc: int) {
    lemma_parse_header_len(s);
}

/// What one chunk of the fill pass contributes.
pub struct Step {
    /// The bytes this chunk adds to the output.
    pub piece: Seq<u8>,
    /// The input bytes the chunk occupies: header plus framed payload.
    pub consumed: int,
    /// The header's original length — the space the chunk claims in the
    /// output buffer.
    pub declared: int,
}

/// One chunk of the fill pass, with `out_rem` bytes of output space left:
/// the framed payload is checked against the remaining input and the
/// declared length against the remaining output before any payload byte is
/// touched; only then is a compressed payload handed to the decompressor,
/// which must fill the declared length exactly.
pub open spec fn chunk_step(s: Seq<u8>, out_rem: int) -> Result<Step, WireError> {
    match parse_header(s) {
        None => Err(WireError::VarintFail),
        Some(h) => if h.framed_len > s.len() - h.header_len || h.original_len > out_rem {
            Err(WireError::Overflow)
        } else {
            let payload = s.subrange(h.header_len, h.header_len + h.framed_len);
            let consumed = h.header_len + h.framed_len;
            if is_compressed(h.flags) {
                match lz4_unpacked_of(payload, h.original_len as int) {
                    None => Err(WireError::Lz4Fail),
                    Some((bytes, written)) => if written != h.original_len {
                        Err(WireError::Overflow)
                    } else {
                        Ok(Step { piece: bytes, consumed, declared: h.original_len as int })
                    },
                }
            } else {
                Ok(Step { piece: payload, consumed, declared: h.original_len as int })
            }
        },
    }
}

/// The fill pass with `out_rem` bytes of output space left: decodes chunk
/// after chunk until the input is exhausted and concatenates the pieces.
pub open spec fn fill_pass(s: Seq<u8>, out_rem: int) -> Result<Seq<u8>, WireError>
    decreases s.len(),
    via fill_pass_decreases
{
    if s.len() == 0 {
        Ok(Seq::empty())
    } else {
        match chunk_step(s, out_rem) {
            Err(e) => Err(e),
            Ok(st) => match fill_pass(s.skip(st.consumed), out_rem - st.declared) {
                Err(e) => Err(e),
                Ok(rest) => Ok(st.piece + rest),
            },
        }
    }
}

#[via_fn]
proof fn fill_pass_decreases(s: Seq<u8>, out_rem: int) {
    lemma_parse_header_len(s);
}

/// The decode driver: the size pass establishes the exact output size,
/// which is held against the caller's ceiling before the fill pass runs.
pub open spec fn decode_spec(s: Seq<u8>, max_output: int) -> Result<Seq<u8>, WireError> {
    match size_pass(s, 0) {
        Err(e) => Err(e),
        Ok(total) => if total > max_output {
            Err(WireError::TooBig(total, max_output))
        } else {
            fill_pass(s, total)
        },
    }
}

/// The framing of one chunk as the encoder writes it: the `Compressed`
/// flag, the block's length, the compressed block's length, then the
/// compressed block itself.
pub open spec fn chunk_encoding(block: Seq<u8>) -> Seq<u8> {
    varint_bytes(FLAG_COMPRESSED) + varint_bytes(block.len() as u64) + varint_bytes(
        lz4_block_of(block).len() as u64,
    ) + lz4_block_of(block)
}

/// The whole encoded stream: the input split into `BLOCKSIZE`-byte blocks
/// (the last may be shorter; an empty input yields an empty stream), each
/// framed in turn.
pub open spec fn encode_spec(b: Seq<u8>) -> Seq<u8>
    decreases b.len(),
{
    if b.len() == 0 {
        Seq::empty()
    } else {
        let n = if b.len() < BLOCKSIZE { b.len() as int } else { BLOCKSIZE as int };
        chunk_encoding(b.take(n)) + encode_spec(b.skip(n))
    }
}

/// Framing one block in front of a remainder stream advances both passes by
/// exactly that block: the size pass adds the block's length to its total,
/// and the fill pass prepends the block's bytes — provided the compressed
/// block round-trips and the running totals stay in bounds.
pub proof fn lemma_passes_prepend_chunk(block: Seq<u8>, rest: Seq<u8>, acc: int, out_rem: int)
    requires
        lz4_unpacked_of(lz4_block_of(block), block.len() as int) == Some(
            (block, block.len() as int),
        ),
        lz4_block_of(block).len() <= u64::MAX,
        block.len() <= u64::MAX,
        0 <= acc,
        acc + block.len() <= usize::MAX,
        block.len() <= out_rem,
    ensures
        size_pass(chunk_encoding(block) + rest, acc) == size_pass(rest, acc + block.len()),
        fill_pass(chunk_encoding(block) + rest, out_rem) == match fill_pass(
            rest,
            out_rem - block.len(),
        ) {
            Ok(r2) => Ok::<Seq<u8>, WireError>(block + r2),
            Err(e) => Err::<Seq<u8>, WireError>(e),
        },
{
    let comp = lz4_block_of(block);
    let olen = block.len() as u64;
    let clen = comp.len() as u64;
    let s = chunk_encoding(block) + rest;

    let t1 = varint_bytes(olen) + (varint_bytes(clen) + (comp + rest));
    lemma_varint_roundtrip(FLAG_COMPRESSED, t1);
    assert(s =~= varint_bytes(FLAG_COMPRESSED) + t1);
    let n1 = varint_bytes(FLAG_COMPRESSED).len() as int;
    assert(varint_value(s) == Some((FLAG_COMPRESSED, n1)));

    let t2 = varint_bytes(clen) + (comp + rest);
    lemma_varint_roundtrip(olen, t2);
    assert(s.skip(n1) =~= varint_bytes(olen) + t2);
    let n2 = varint_bytes(olen).len() as int;
    assert(varint_value(s.skip(n1)) == Some((olen, n2)));

    let t3 = comp + rest;
    lemma_varint_roundtrip(clen, t3);
    assert(s.skip(n1 + n2) =~= varint_bytes(clen) + t3);
    let n3 = varint_bytes(clen).len() as int;
    assert(varint_value(s.skip(n1 + n2)) == Some((clen, n3)));

    assert(is_compressed(FLAG_COMPRESSED)) by (bit_vector);

    let hl = n1 + n2 + n3;
    let h = parse_header(s).unwrap();
    assert(h == Header { flags: FLAG_COMPRESSED, original_len: olen, framed_len: clen, header_len: hl });

    assert(s.len() - hl == comp.len() + rest.len());
    assert(!(h.framed_len > s.len() - h.header_len));
    assert(s.subrange(hl, hl + clen) =~= comp);
    assert(s.skip(hl + clen) =~= rest);

    // the size pass
    assert(size_pass(s, acc) == size_pass(rest, acc + block.len()));

    // the fill pass
    let st = Step { piece: block, consumed: hl + clen, declared: block.len() as int };
    assert(chunk_step(s, out_rem) == Ok::<Step, WireError>(st));
    assert(fill_pass(s, out_rem) == match fill_pass(rest, out_rem - block.len()) {
        Ok(r2) => Ok::<Seq<u8>, WireError>(block + r2),
        Err(e) => Err::<Seq<u8>, WireError>(e),
    });
}

/// The round trip: a stream whose size pass totals `b.len()` and whose
/// fill pass yields `b` — what `encode_stream`'s contract grants of the
/// stream it returns for `b` — decodes to `b` under any ceiling of at
/// least `b.len()`.
pub proof fn lemma_round_trip(s: Seq<u8>, b: Seq<u8>, max_output: int)
    requires
        size_pass(s, 0) == Ok::<int, WireError>(b.len() as int),
        fill_pass(s, b.len() as int) == Ok::<Seq<u8>, WireError>(b),
        b.len() <= max_output,
    ensures
        decode_spec(s, max_output) == Ok::<Seq<u8>, WireError>(b),
{
}

/// Framing is deterministic: two encodings of the same input are the same
/// stream byte for byte, so they decode alike under any ceiling.
pub proof fn lemma_encode_deterministic(b: Seq<u8>, s1: Seq<u8>, s2: Seq<u8>, max_output: int)
    requires
        s1 == encode_spec(b),
        s2 == encode_spec(b),
    ensures
        s1 == s2,
        decode_spec(s1, max_output) == decode_spec(s2, max_output),
{
}

/// The ceiling is enforced exactly at the boundary: a stream whose
/// computed total exceeds `max_output` is refused with that total and the
/// ceiling, while one whose total is within it — equality included — goes
/// on to the fill pass untouched by the ceiling.
pub proof fn lemma_max_output_boundary(s: Seq<u8>, total: int, max_output: int)
    requires
        size_pass(s, 0) == Ok::<int, WireError>(total),
    ensures
        total > max_output ==> decode_spec(s, max_output) == Err::<Seq<u8>, WireError>(
            WireError::TooBig(total, max_output),
        ),
        total <= max_output ==> decode_spec(s, max_output) == fill_pass(s, total),
{
}

/// The chunking boundary: an input of exactly `BLOCKSIZE` bytes is framed
/// as a single chunk, and one byte more adds a second chunk holding
/// exactly that one byte.
pub proof fn lemma_chunking_boundary(b: Seq<u8>)
    ensures
        b.len() == BLOCKSIZE ==> encode_spec(b) == chunk_encoding(b),
        b.len() == BLOCKSIZE + 1 ==> encode_spec(b) == chunk_encoding(b.take(BLOCKSIZE as int))
            + chunk_encoding(b.skip(BLOCKSIZE as int)) && b.skip(BLOCKSIZE as int).len() == 1,
{
    assert(encode_spec(Seq::<u8>::empty()) == Seq::<u8>::empty());
    if b.len() == BLOCKSIZE {
        assert(b.take(BLOCKSIZE as int) =~= b);
        assert(b.skip(BLOCKSIZE as int) =~= Seq::<u8>::empty());
        assert(chunk_encoding(b) + Seq::<u8>::empty() =~= chunk_encoding(b));
    }
    if b.len() == BLOCKSIZE + 1 {
        let tail = b.skip(BLOCKSIZE as int);
        assert(tail.take(1) =~= tail);
        assert(tail.skip(1) =~= Seq::<u8>::empty());
        assert(chunk_encoding(tail) + Seq::<u8>::empty() =~= chunk_encoding(tail));
        assert(encode_spec(tail) == chunk_encoding(tail));
    }
}

/// The uncompressed wire form, which this encoder never emits but the
/// format permits: a hand-built chunk whose `Compressed` bit is clear and
/// whose payload length equals its declared length decodes to a verbatim
/// copy of the payload, whatever the remaining flag bits hold.
pub proof fn lemma_uncompressed_chunk(flags: u64, p: Seq<u8>, max_output: int)
    requires
        !is_compressed(flags),
        p.len() <= usize::MAX,
        p.len() <= max_output,
    ensures
        decode_spec(varint_bytes(flags) + varint_bytes(p.len() as u64) + p, max_output) == Ok::<
            Seq<u8>,
            WireError,
        >(p),
{
    let olen = p.len() as u64;
    let s = varint_bytes(flags) + varint_bytes(olen) + p;
    let t1 = varint_bytes(olen) + p;
    lemma_varint_roundtrip(flags, t1);
    assert(s =~= varint_bytes(flags) + t1);
    let n1 = varint_bytes(flags).len() as int;
    assert(varint_value(s) == Some((flags, n1)));
    lemma_varint_roundtrip(olen, p);
    assert(s.skip(n1) =~= varint_bytes(olen) + p);
    let n2 = varint_bytes(olen).len() as int;
    assert(varint_value(s.skip(n1)) == Some((olen, n2)));
    let hl = n1 + n2;
    let h = parse_header(s).unwrap();
    assert(h == Header { flags, original_len: olen, framed_len: olen, header_len: hl });
    assert(s.len() - hl == p.len());
    assert(s.subrange(hl, hl + olen) =~= p);
    assert(s.skip(hl + olen) =~= Seq::<u8>::empty());
    assert(size_pass(s.skip(hl + olen), olen as int) == Ok::<int, WireError>(olen as int));
    assert(size_pass(s, 0) == Ok::<int, WireError>(p.len() as int));
    let st = Step { piece: p, consumed: hl + olen, declared: p.len() as int };
    assert(chunk_step(s, p.len() as int) == Ok::<Step, WireError>(st));
    assert(fill_pass(s.skip(hl + olen), 0) == Ok::<Seq<u8>, WireError>(Seq::<u8>::empty()));
    assert(p + Seq::<u8>::empty() =~= p);
    assert(fill_pass(s, p.len() as int) == Ok::<Seq<u8>, WireError>(p));
}

/// The empty stream: an empty input encodes to an empty stream, and an
/// empty stream decodes to an empty output even under a zero ceiling.
pub proof fn lemma_empty_stream()
    ensures
        encode_spec(Seq::<u8>::empty()) == Seq::<u8>::empty(),
        decode_spec(Seq::<u8>::empty(), 0) == Ok::<Seq<u8>, WireError>(Seq::<u8>::empty()),
{
}

} // verus!
