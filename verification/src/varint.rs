//! Variable-length encoding of unsigned 64-bit integers: seven value bits
//! per byte, least-significant group first, high bit set on every byte but
//! the last.  Both chunk-header fields of the wire format use this encoding.

use vstd::arithmetic::div_mod::lemma_fundamental_div_mod;
use vstd::prelude::*;

verus! {

/// The encoding of `v`: its base-128 digits, least significant first,
/// every byte but the last marked with the continuation bit.
pub open spec fn varint_bytes(v: u64) -> Seq<u8>
    decreases v,
{
    if v < 128 {
        seq![v as u8]
    } else {
        seq![(v % 128 + 128) as u8] + varint_bytes(v / 128)
    }
}

/// Reading a varint from the front of `s`: the decoded value and the number
/// of bytes consumed, or `None` when `s` ends mid-integer or the value does
/// not fit in 64 bits.
pub open spec fn varint_value(s: Seq<u8>) -> Option<(u64, int)>
    decreases s.len(),
{
    if s.len() == 0 {
        None
    } else if s[0] < 128 {
        Some((s[0] as u64, 1))
    } else {
        match varint_value(s.skip(1)) {
            None => None,
            Some((hi, n)) => if (s[0] - 128) + 128 * hi <= u64::MAX {
                Some((((s[0] - 128) + 128 * hi) as u64, n + 1))
            } else {
                None
            },
        }
    }
}

/// A successful read consumes at least one byte and no more than `s` holds.
pub proof fn lemma_varint_value_len(s: Seq<u8>)
    ensures
        varint_value(s) matches Some(p) ==> 1 <= p.1 <= s.len(),
    decreases s.len(),
{
    if s.len() > 0 && s[0] >= 128 {
        lemma_varint_value_len(s.skip(1));
    }
}

/// The decoder inverts the encoder: a stream that starts with the encoding
/// of `v` yields `v` and consumes exactly that encoding, whatever follows.
pub proof fn lemma_varint_roundtrip(v: u64, rest: Seq<u8>)
    ensures
        varint_value(varint_bytes(v) + rest) == Some((v, varint_bytes(v).len() as int)),
    decreases v,
{
    let s = varint_bytes(v) + rest;
    if v < 128 {
        assert(s[0] == v as u8);
    } else {
        lemma_varint_roundtrip(v / 128, rest);
        assert(s.skip(1) =~= varint_bytes(v / 128) + rest);
        assert(s[0] == (v % 128 + 128) as u8);
        lemma_fundamental_div_mod(v as int, 128);
    }
}

/// Appends the encoding of `v` to `out`.
pub fn write_varint(out: &mut Vec<u8>, v: u64)
    ensures
        final(out)@ == old(out)@ + varint_bytes(v),
    decreases v,
{
    if v < 128 {
        out.push(v as u8);
        assert(out@ =~= old(out)@ + varint_bytes(v));
    } else {
        out.push((v % 128 + 128) as u8);
        write_varint(out, v / 128);
        assert(out@ =~= old(out)@ + varint_bytes(v));
    }
}

/// Reads one varint from `data` starting at `pos`; returns the value and
/// the position just past it, or `None` on a truncated or overlong integer.
pub fn read_varint(data: &[u8], pos: usize) -> (r: Option<(u64, usize)>)
    requires
        pos <= data@.len(),
    ensures
        match varint_value(data@.skip(pos as int)) {
            Some(p) => r == Some((p.0, (pos + p.1) as usize)),
            None => r is None,
        },
    decreases data@.len() - pos,
{
    let ghost s = data@.skip(pos as int);
    proof {
        lemma_varint_value_len(s);
    }
    if pos == data.len() {
        return None;
    }
    let b = *vstd::slice::slice_index_get(data, pos);
    assert(b == s[0]);
    if b < 128 {
        Some((b as u64, pos + 1))
    } else {
        assert(data@.skip(pos as int + 1) =~= s.skip(1));
        match read_varint(data, pos + 1) {
            None => None,
            Some((hi, end)) => {
                let low: u64 = (b - 128) as u64;
                let limit: u64 = (u64::MAX - low) / 128;
                proof {
                    lemma_fundamental_div_mod((u64::MAX - low) as int, 128);
                }
                if hi > limit {
                    None
                } else {
                    Some((low + 128 * hi, end))
                }
            },
        }
    }
}

} // verus!
