//! Byte-buffer primitives shared by the codec layers.
//!
//! Decoders drain consumed bytes from the front of a caller-provided
//! `Vec<u8>`; these helpers do that draining and relate it to sequence
//! operations, and give the 32-bit little-endian field its model.

use crate::result::{ErrorKind, QuicheError, QuicheResult};
use vstd::prelude::*;

verus! {

/// The four bytes of `v` in little-endian order.
pub open spec fn le32_bytes(v: u32) -> Seq<u8> {
    seq![
        (v % 0x100) as u8,
        ((v / 0x100) % 0x100) as u8,
        ((v / 0x1_0000) % 0x100) as u8,
        ((v / 0x100_0000) % 0x100) as u8,
    ]
}

/// The value carried by four little-endian bytes.
pub open spec fn le32_val(s: Seq<u8>) -> u32
    recommends
        s.len() == 4,
{
    (s[0] + s[1] * 0x100 + s[2] * 0x1_0000 + s[3] * 0x100_0000) as u32
}

/// Little-endian decomposition and recomposition are inverses.
pub proof fn lemma_le32_round_trip(v: u32)
    ensures
        le32_bytes(v).len() == 4,
        le32_val(le32_bytes(v)) == v,
{
    assert((v / 0x100) / 0x100 == v / 0x1_0000) by (nonlinear_arith);
    assert((v / 0x1_0000) / 0x100 == v / 0x100_0000) by (nonlinear_arith);
    assert(v / 0x100_0000 < 0x100);
}

/// Removes the first byte of the buffer, or reports a truncated buffer.
pub fn read_u8(bytes: &mut Vec<u8>) -> (r: QuicheResult<u8>)
    ensures
        old(bytes)@.len() == 0 ==> r is Err && r->Err_0.kind == ErrorKind::Truncated
            && final(bytes)@ == old(bytes)@,
        old(bytes)@.len() > 0 ==> r is Ok && r->Ok_0 == old(bytes)@[0]
            && final(bytes)@ == old(bytes)@.skip(1),
{
    if bytes.len() == 0 {
        Err(QuicheError::new(ErrorKind::Truncated, "buffer ended before a byte field"))
    } else {
        let b = bytes.remove(0);
        assert(bytes@ =~= old(bytes)@.skip(1));
        Ok(b)
    }
}

/// Removes the first `n` bytes of the buffer and hands them back, or
/// reports a truncated buffer and leaves it unchanged.
pub fn read_bytes(bytes: &mut Vec<u8>, n: usize) -> (r: QuicheResult<Vec<u8>>)
    ensures
        n <= old(bytes)@.len() ==> r is Ok && r->Ok_0@ == old(bytes)@.take(n as int)
            && final(bytes)@ == old(bytes)@.skip(n as int),
        n > old(bytes)@.len() ==> r is Err && r->Err_0.kind == ErrorKind::Truncated
            && final(bytes)@ == old(bytes)@,
{
    if n > bytes.len() {
        Err(QuicheError::new(ErrorKind::Truncated, "buffer ended before a byte-run field"))
    } else {
        let mut rest = bytes.split_off(n);
        core::mem::swap(bytes, &mut rest);
        assert(rest@ =~= old(bytes)@.take(n as int));
        assert(bytes@ =~= old(bytes)@.skip(n as int));
        Ok(rest)
    }
}

/// Removes the first `n` bytes of the buffer without keeping them.
pub fn drop_front(bytes: &mut Vec<u8>, n: usize)
    requires
        n <= old(bytes)@.len(),
    ensures
        final(bytes)@ == old(bytes)@.skip(n as int),
{
    let mut rest = bytes.split_off(n);
    core::mem::swap(bytes, &mut rest);
    assert(bytes@ =~= old(bytes)@.skip(n as int));
}

/// Appends the four little-endian bytes of `v`.
pub fn push_u32_le(out: &mut Vec<u8>, v: u32)
    ensures
        final(out)@ == old(out)@ + le32_bytes(v),
{
    out.push((v % 0x100) as u8);
    out.push(((v / 0x100) % 0x100) as u8);
    out.push(((v / 0x1_0000) % 0x100) as u8);
    out.push(((v / 0x100_0000) % 0x100) as u8);
    assert(out@ =~= old(out)@ + le32_bytes(v));
}

/// Appends a run of bytes.
pub fn push_slice(buf: &mut Vec<u8>, data: &[u8])
    ensures
        final(buf)@ == old(buf)@ + data@,
{
    let mut i: usize = 0;
    while i < data.len()
        invariant
            i <= data@.len(),
            buf@ == old(buf)@ + data@.take(i as int),
        decreases data@.len() - i,
    {
        buf.push(data[i]);
        assert(old(buf)@ + data@.take(i + 1) =~= (old(buf)@ + data@.take(i as int)).push(
            data@[i as int],
        ));
        i = i + 1;
    }
    assert(old(buf)@ + data@.take(data@.len() as int) =~= old(buf)@ + data@);
}

/// A fresh buffer with the same contents.
pub fn copy_bytes(data: &Vec<u8>) -> (r: Vec<u8>)
    ensures
        r@ == data@,
{
    let mut out: Vec<u8> = Vec::new();
    push_bytes(&mut out, data);
    out
}

/// Appends the contents of another buffer, leaving it untouched.
pub fn push_bytes(buf: &mut Vec<u8>, data: &Vec<u8>)
    ensures
        final(buf)@ == old(buf)@ + data@,
{
    push_slice(buf, data.as_slice())
}

/// Removes four bytes from the front of the buffer and reads them as a
/// little-endian 32-bit value, or reports a truncated buffer.
pub fn read_u32_le(bytes: &mut Vec<u8>) -> (r: QuicheResult<u32>)
    ensures
        old(bytes)@.len() >= 4 ==> r is Ok && r->Ok_0 == le32_val(old(bytes)@.take(4))
            && final(bytes)@ == old(bytes)@.skip(4),
        old(bytes)@.len() < 4 ==> r is Err && r->Err_0.kind == ErrorKind::Truncated
            && final(bytes)@ == old(bytes)@,
{
    if bytes.len() < 4 {
        return Err(QuicheError::new(ErrorKind::Truncated, "buffer ended inside a version field"));
    }
    let b0 = bytes[0];
    let b1 = bytes[1];
    let b2 = bytes[2];
    let b3 = bytes[3];
    drop_front(bytes, 4);
    let v: u32 = b0 as u32 + (b1 as u32) * 0x100 + (b2 as u32) * 0x1_0000 + (b3 as u32)
        * 0x100_0000;
    Ok(v)
}

} // verus!
