//! A streaming chunked-compression container: an arbitrary byte stream is
//! split into bounded chunks, each chunk is block-compressed and framed with
//! a small self-describing header, and the framed stream decodes back to the
//! original bytes under a caller-supplied output ceiling.

use vstd::prelude::*;

pub mod compressor;
pub mod varint;
pub mod wire;

verus! {

/// The encoder's fixed chunk size: the byte stream is split into blocks of
/// at most this many bytes, each framed as one chunk.
pub const BLOCKSIZE: usize = 1024 * 1024;

/// The error a whole decode surfaces to the caller.  Decode is
/// all-or-nothing: any of these invalidates the entire stream.
#[derive(Debug)]
pub enum DSError {
    /// The block decompressor rejected a payload as corrupt.
    LZ4(lz4_flex::block::DecompressError),
    /// A declared length exceeds the remaining input or output, or a size
    /// sum wrapped.
    CorruptedOverflow,
    /// The computed output size `.0` exceeds the caller's ceiling `.1`.
    Overflow(usize, usize),
    /// A header integer was truncated or out of range.
    VarintFail,
}

/// The error one step of a decode pass reports; the decode driver turns it
/// into a [`DSError`].
#[derive(Debug)]
pub enum ChunkResult {
    /// A declared length exceeds what remains, or a size sum wrapped.
    Overflow,
    /// A header integer was truncated or out of range.
    VarintFail,
    /// The block decompressor rejected a payload as corrupt.
    LZ4Fail(lz4_flex::block::DecompressError),
}

impl From<lz4_flex::block::DecompressError> for ChunkResult {
    fn from(value: lz4_flex::block::DecompressError) -> (r: Self) {
        ChunkResult::LZ4Fail(value)
    }
}

impl vstd::std_specs::convert::FromSpecImpl<lz4_flex::block::DecompressError> for ChunkResult {
    open spec fn obeys_from_spec() -> bool {
        true
    }

    open spec fn from_spec(v: lz4_flex::block::DecompressError) -> Self {
        ChunkResult::LZ4Fail(v)
    }
}

impl From<ChunkResult> for DSError {
    fn from(value: ChunkResult) -> (r: Self) {
        match value {
            ChunkResult::Overflow => DSError::CorruptedOverflow,
            ChunkResult::VarintFail => DSError::VarintFail,
            ChunkResult::LZ4Fail(ex) => DSError::LZ4(ex),
        }
    }
}

impl vstd::std_specs::convert::FromSpecImpl<ChunkResult> for DSError {
    open spec fn obeys_from_spec() -> bool {
        true
    }

    open spec fn from_spec(v: ChunkResult) -> Self {
        match v {
            ChunkResult::Overflow => DSError::CorruptedOverflow,
            ChunkResult::VarintFail => DSError::VarintFail,
            ChunkResult::LZ4Fail(ex) => DSError::LZ4(ex),
        }
    }
}

/// Frames `input` as one compressed chunk appended to `data`: flags, the
/// original length, the compressed length, then the compressed block.  The
/// extra clauses record the compressor facts the chunk was framed with, so
/// a caller can conclude that the chunk decodes back to `input`.
pub fn write_chunk(data: &mut Vec<u8>, input: &[u8])
    ensures
        final(data)@ == old(data)@ + wire::chunk_encoding(input@),
        compressor::lz4_unpacked_of(compressor::lz4_block_of(input@), input@.len() as int)
            == Some((input@, input@.len() as int)),
        compressor::lz4_block_of(input@).len() <= usize::MAX,
{
    varint::write_varint(data, wire::FLAG_COMPRESSED);
    varint::write_varint(data, input.len() as u64);
    let mut comp = compressor::lz4_compress(input);
    varint::write_varint(data, comp.len() as u64);
    data.append(&mut comp);
    assert(data@ =~= old(data)@ + wire::chunk_encoding(input@));
}

/// Appends the framing of `data[pos..]`, block by block, to `out`, and
/// carries the facts both decode passes need about the appended stream.
#[verifier::rlimit(60)]
fn encode_from(data: &[u8], pos: usize, out: &mut Vec<u8>)
    requires
        pos <= data@.len(),
    ensures
        final(out)@ == old(out)@ + wire::encode_spec(data@.skip(pos as int)),
        forall|acc: int|
            0 <= acc && acc + (data@.len() - pos) <= usize::MAX ==> #[trigger] wire::size_pass(
                wire::encode_spec(data@.skip(pos as int)),
                acc,
            ) == Ok::<int, wire::WireError>(acc + (data@.len() - pos)),
        forall|out_rem: int|
            data@.len() - pos <= out_rem ==> #[trigger] wire::fill_pass(
                wire::encode_spec(data@.skip(pos as int)),
                out_rem,
            ) == Ok::<Seq<u8>, wire::WireError>(data@.skip(pos as int)),
    decreases data@.len() - pos,
{
    let ghost sfx = data@.skip(pos as int);
    let remaining = data.len() - pos;
    if remaining == 0 {
        assert(sfx =~= Seq::<u8>::empty());
        assert(out@ =~= old(out)@ + wire::encode_spec(sfx));
        return ;
    }
    let n = if remaining < BLOCKSIZE {
        remaining
    } else {
        BLOCKSIZE
    };
    let block = vstd::slice::slice_subrange(data, pos, pos + n);
    assert(block@ =~= sfx.take(n as int));
    write_chunk(out, block);
    encode_from(data, pos + n, out);
    proof {
        let rest = wire::encode_spec(data@.skip(pos as int + n));
        assert(data@.skip(pos as int + n) =~= sfx.skip(n as int));
        assert(wire::encode_spec(sfx) == wire::chunk_encoding(block@) + rest);
        assert(out@ =~= old(out)@ + wire::encode_spec(sfx));
        assert forall|acc: int| 0 <= acc && acc + (data@.len() - pos) <= usize::MAX implies #[trigger] wire::size_pass(
            wire::encode_spec(sfx),
            acc,
        ) == Ok::<int, wire::WireError>(acc + (data@.len() - pos)) by {
            wire::lemma_passes_prepend_chunk(block@, rest, acc, block@.len() as int);
        }
        assert forall|out_rem: int| data@.len() - pos <= out_rem implies #[trigger] wire::fill_pass(
            wire::encode_spec(sfx),
            out_rem,
        ) == Ok::<Seq<u8>, wire::WireError>(sfx) by {
            wire::lemma_passes_prepend_chunk(block@, rest, 0, out_rem);
            assert(block@ + sfx.skip(n as int) =~= sfx);
        }
    }
}

/// A zero-filled buffer of the given length: the decode output buffer,
/// allocated once, only after the size pass has validated the total.
fn zero_vec(len: usize) -> (r: Vec<u8>)
    ensures
        r@ == Seq::new(len as nat, |i: int| 0u8),
{
    let mut r: Vec<u8> = Vec::new();
    let mut i: usize = 0;
    while i < len
        invariant
            i <= len,
            r@ == Seq::new(i as nat, |j: int| 0u8),
        decreases len - i,
    {
        r.push(0u8);
        i = i + 1;
        assert(r@ =~= Seq::new(i as nat, |j: int| 0u8));
    }
    r
}

/// Copies `src` verbatim into `out` at offset `at`, leaving the rest of
/// `out` untouched.
fn copy_at(out: &mut Vec<u8>, at: usize, src: &[u8])
    requires
        at + src@.len() <= old(out)@.len(),
    ensures
        final(out)@.len() == old(out)@.len(),
        final(out)@ == old(out)@.subrange(0, at as int) + src@ + old(out)@.skip(
            at + src@.len() as int,
        ),
{
    let n = src.len();
    let out_len = out.len();
    let mut i: usize = 0;
    while i < n
        invariant
            i <= n,
            n == src@.len(),
            out_len == out@.len(),
            at + n <= out_len,
            out@.len() == old(out)@.len(),
            forall|j: int| 0 <= j < at ==> out@[j] == old(out)@[j],
            forall|j: int| 0 <= j < i ==> out@[at + j] == src@[j],
            forall|j: int| at + n <= j < out@.len() ==> out@[j] == old(out)@[j],
        decreases n - i,
    {
        let b = *vstd::slice::slice_index_get(src, i);
        out.set(at + i, b);
        i = i + 1;
    }
    assert(out@ =~= old(out)@.subrange(0, at as int) + src@ + old(out)@.skip(at + n as int));
}

/// The size-calculation pass: walks the framed input without touching a
/// payload byte, validates every chunk's framed length against what
/// remains, and sums the declared original lengths with overflow-checked
/// arithmetic.  The result is the exact decode output size.
pub fn calc_dc_size(data: &[u8]) -> (r: Result<usize, ChunkResult>)
    ensures
        match wire::size_pass(data@, 0) {
            Ok(total) => r matches Ok(c) && c == total,
            Err(wire::WireError::VarintFail) => r matches Err(e) && e is VarintFail,
            Err(wire::WireError::Overflow) => r matches Err(e) && e is Overflow,
            Err(_) => false,
        },
{
    let mut pos: usize = 0;
    let mut count: usize = 0;
    assert(data@.skip(0) =~= data@);
    loop
        invariant
            pos <= data@.len(),
            wire::size_pass(data@, 0) == wire::size_pass(data@.skip(pos as int), count as int),
        decreases data@.len() - pos,
    {
        let ghost s = data@.skip(pos as int);
        if pos == data.len() {
            assert(s =~= Seq::<u8>::empty());
            return Ok(count);
        }
        let (flags, p1) = match varint::read_varint(data, pos) {
            None => {
                return Err(ChunkResult::VarintFail);
            },
            Some(x) => x,
        };
        proof {
            varint::lemma_varint_value_len(s);
            assert(data@.skip(p1 as int) =~= s.skip(p1 - pos));
        }
        let (olen, p2) = match varint::read_varint(data, p1) {
            None => {
                return Err(ChunkResult::VarintFail);
            },
            Some(x) => x,
        };
        proof {
            varint::lemma_varint_value_len(s.skip(p1 - pos));
            assert(data@.skip(p2 as int) =~= s.skip(p2 - pos));
        }
        let compressed = flags & wire::FLAG_COMPRESSED == wire::FLAG_COMPRESSED;
        let (framed, p_hdr) = if compressed {
            match varint::read_varint(data, p2) {
                None => {
                    return Err(ChunkResult::VarintFail);
                },
                Some(x) => x,
            }
        } else {
            (olen, p2)
        };
        proof {
            if compressed {
                varint::lemma_varint_value_len(s.skip(p2 - pos));
            }
        }
        let ghost h = wire::parse_header(s).unwrap();
        assert(h.framed_len == framed && h.original_len == olen && pos + h.header_len == p_hdr);
        let remaining = data.len() - p_hdr;
        if framed > remaining as u64 {
            return Err(ChunkResult::Overflow);
        }
        if olen > usize::MAX as u64 - count as u64 {
            return Err(ChunkResult::Overflow);
        }
        count = count + olen as usize;
        pos = p_hdr + framed as usize;
        proof {
            assert(data@.skip(pos as int) =~= s.skip(h.header_len + h.framed_len));
        }
    }
}

/// The fill pass's single step: if the input at `*pos` is exhausted,
/// reports done.  Otherwise decodes one chunk header, validates the framed
/// length against the remaining input and the declared length against the
/// remaining output, then decompresses (or copies) the payload into `out`
/// at `*out_pos` and advances both cursors.  On an error the cursors are
/// unspecified: the caller must treat the whole decode as failed.
fn get_chunk(data: &[u8], pos: &mut usize, out: &mut Vec<u8>, out_pos: &mut usize) -> (r: Result<
    bool,
    ChunkResult,
>)
    requires
        *old(pos) <= data@.len(),
        *old(out_pos) <= old(out)@.len(),
    ensures
        final(out)@.len() == old(out)@.len(),
        match r {
            Ok(done) => if done {
                &&& data@.skip(*old(pos) as int).len() == 0
                &&& *final(pos) == *old(pos)
                &&& *final(out_pos) == *old(out_pos)
                &&& final(out)@ == old(out)@
            } else {
                &&& data@.skip(*old(pos) as int).len() > 0
                &&& (wire::chunk_step(
                    data@.skip(*old(pos) as int),
                    old(out)@.len() - *old(out_pos),
                ) matches Ok(st) && *final(pos) == *old(pos) + st.consumed && *final(out_pos)
                    == *old(out_pos) + st.declared && *final(pos) <= data@.len() && *final(out_pos)
                    <= final(out)@.len() && st.piece.len() == st.declared && final(out)@ == old(
                    out,
                )@.subrange(0, *old(out_pos) as int) + st.piece + old(out)@.skip(
                    *old(out_pos) + st.declared,
                ))
            },
            Err(e) => {
                &&& data@.skip(*old(pos) as int).len() > 0
                &&& match wire::chunk_step(
                    data@.skip(*old(pos) as int),
                    old(out)@.len() - *old(out_pos),
                ) {
                    Err(wire::WireError::VarintFail) => e is VarintFail,
                    Err(wire::WireError::Overflow) => e is Overflow,
                    Err(wire::WireError::Lz4Fail) => e is LZ4Fail,
                    _ => false,
                }
            },
        },
{
    let p0 = *pos;
    let ghost s = data@.skip(p0 as int);
    if p0 == data.len() {
        assert(s =~= Seq::<u8>::empty());
        return Ok(true);
    }
    let (flags, p1) = match varint::read_varint(data, p0) {
        None => {
            return Err(ChunkResult::VarintFail);
        },
        Some(x) => x,
    };
    proof {
        varint::lemma_varint_value_len(s);
        assert(data@.skip(p1 as int) =~= s.skip(p1 - p0));
    }
    let (olen, p2) = match varint::read_varint(data, p1) {
        None => {
            return Err(ChunkResult::VarintFail);
        },
        Some(x) => x,
    };
    proof {
        varint::lemma_varint_value_len(s.skip(p1 - p0));
        assert(data@.skip(p2 as int) =~= s.skip(p2 - p0));
    }
    let compressed = flags & wire::FLAG_COMPRESSED == wire::FLAG_COMPRESSED;
    let (framed, p_hdr) = if compressed {
        match varint::read_varint(data, p2) {
            None => {
                return Err(ChunkResult::VarintFail);
            },
            Some(x) => x,
        }
    } else {
        (olen, p2)
    };
    proof {
        if compressed {
            varint::lemma_varint_value_len(s.skip(p2 - p0));
        }
    }
    let ghost h = wire::parse_header(s).unwrap();
    assert(h.framed_len == framed && h.original_len == olen && p0 + h.header_len == p_hdr
        && h.flags == flags);
    let rem_in = data.len() - p_hdr;
    let rem_out = out.len() - *out_pos;
    if framed > rem_in as u64 || olen > rem_out as u64 {
        return Err(ChunkResult::Overflow);
    }
    let framed_us = framed as usize;
    let olen_us = olen as usize;
    let payload = vstd::slice::slice_subrange(data, p_hdr, p_hdr + framed_us);
    assert(payload@ =~= s.subrange(h.header_len, h.header_len + h.framed_len));
    let op = *out_pos;
    if compressed {
        match compressor::lz4_decompress(payload, olen_us) {
            Err(e) => {
                return Err(ChunkResult::from(e));
            },
            Ok((buf, written)) => {
                if written != olen_us {
                    return Err(ChunkResult::Overflow);
                }
                copy_at(out, op, buf.as_slice());
            },
        }
    } else {
        copy_at(out, op, payload);
    }
    *pos = p_hdr + framed_us;
    *out_pos = op + olen_us;
    Ok(false)
}

/// Decodes a framed stream back into the original bytes, refusing to
/// allocate more than `max_output`: the size pass establishes the exact
/// output size, which is held against the ceiling before the buffer is
/// allocated; the fill pass then decompresses chunk by chunk into it.
pub fn decode_stream(data: &[u8], max_output: usize) -> (r: Result<Vec<u8>, DSError>)
    ensures
        match wire::decode_spec(data@, max_output as int) {
            Ok(out) => r matches Ok(v) && v@ == out,
            Err(wire::WireError::VarintFail) => r matches Err(e) && e is VarintFail,
            Err(wire::WireError::Overflow) => r matches Err(e) && e is CorruptedOverflow,
            Err(wire::WireError::TooBig(t, m)) => r matches Err(e) && (e matches DSError::Overflow(
                a,
                b,
            ) && a == t && b == m),
            Err(wire::WireError::Lz4Fail) => r matches Err(e) && e is LZ4,
        },
{
    let out_size = match calc_dc_size(data) {
        Err(e) => {
            return Err(DSError::from(e));
        },
        Ok(n) => n,
    };
    if out_size > max_output {
        return Err(DSError::Overflow(out_size, max_output));
    }
    let mut out = zero_vec(out_size);
    let mut pos: usize = 0;
    let mut out_pos: usize = 0;
    proof {
        assert(data@.skip(0) =~= data@);
        match wire::fill_pass(data@, out_size as int) {
            Ok(rest) => {
                assert(out@.subrange(0, 0) + rest =~= rest);
            },
            Err(_) => {},
        }
    }
    loop
        invariant
            pos <= data@.len(),
            out_pos <= out@.len(),
            out@.len() == out_size,
            out_size <= max_output,
            wire::size_pass(data@, 0) == Ok::<int, wire::WireError>(out_size as int),
            wire::size_pass(data@.skip(pos as int), out_pos as int) == Ok::<int, wire::WireError>(
                out_size as int,
            ),
            match wire::fill_pass(data@.skip(pos as int), out_size - out_pos) {
                Ok(rest) => wire::fill_pass(data@, out_size as int) == Ok::<Seq<u8>, wire::WireError>(
                    out@.subrange(0, out_pos as int) + rest,
                ),
                Err(e) => wire::fill_pass(data@, out_size as int) == Err::<Seq<u8>, wire::WireError>(
                    e,
                ),
            },
        decreases data@.len() - pos,
    {
        let ghost pos0 = pos;
        let ghost op0 = out_pos;
        let ghost out0 = out@;
        let ghost s0 = data@.skip(pos0 as int);
        match get_chunk(data, &mut pos, &mut out, &mut out_pos) {
            Err(e) => {
                return Err(DSError::from(e));
            },
            Ok(true) => {
                proof {
                    assert(out@.subrange(0, out_pos as int) =~= out@);
                    match wire::fill_pass(s0, out_size - op0) {
                        Ok(rest) => {
                            assert(out@.subrange(0, out_pos as int) + rest =~= out@);
                        },
                        Err(_) => {},
                    }
                }
                return Ok(out);
            },
            Ok(false) => {
                proof {
                    wire::lemma_parse_header_len(s0);
                    let st = wire::chunk_step(s0, out_size - op0)->Ok_0;
                    assert(data@.skip(pos as int) =~= s0.skip(st.consumed));
                    match wire::fill_pass(data@.skip(pos as int), out_size - out_pos) {
                        Ok(rest2) => {
                            assert(out@.subrange(0, out_pos as int) =~= out0.subrange(0, op0 as int)
                                + st.piece);
                            assert((out0.subrange(0, op0 as int) + st.piece) + rest2
                                =~= out0.subrange(0, op0 as int) + (st.piece + rest2));
                        },
                        Err(_) => {},
                    }
                }
            },
        }
    }
}

/// Encodes the whole of `data` as a framed compressed stream.  Encoding is
/// total — the `Ok` is unconditional — and the stream is pinned exactly:
/// it is `encode_spec` of the input, its size pass yields the input's
/// length, and its fill pass yields the input back (the round trip).
pub fn encode_stream(data: &[u8]) -> (r: Result<Vec<u8>, DSError>)
    ensures
        r matches Ok(v) && v@ == wire::encode_spec(data@),
        r matches Ok(v) && wire::size_pass(v@, 0) == Ok::<int, wire::WireError>(
            data@.len() as int,
        ),
        r matches Ok(v) && wire::fill_pass(v@, data@.len() as int) == Ok::<Seq<u8>, wire::WireError>(
            data@,
        ),
{
    let len = data.len();
    let mut result: Vec<u8> = Vec::new();
    encode_from(data, 0, &mut result);
    proof {
        assert(data@.skip(0) =~= data@);
        assert(result@ =~= wire::encode_spec(data@));
        assert(wire::size_pass(wire::encode_spec(data@.skip(0)), 0) == Ok::<
            int,
            wire::WireError,
        >(len as int));
        assert(wire::fill_pass(wire::encode_spec(data@.skip(0)), len as int) == Ok::<
            Seq<u8>,
            wire::WireError,
        >(data@));
    }
    Ok(result)
}

} // verus!
