//! Little-endian integers at positions of a byte sequence.

use vstd::prelude::*;
use vstd::bytes::*;
use vstd::slice::slice_subrange;

verus! {

/// The `u16` stored little-endian at position `p` of `s`.
pub open spec fn le_u16_at(s: Seq<u8>, p: int) -> u16 {
    spec_u16_from_le_bytes(s.subrange(p, p + 2))
}

/// The `u32` stored little-endian at position `p` of `s`.
pub open spec fn le_u32_at(s: Seq<u8>, p: int) -> u32 {
    spec_u32_from_le_bytes(s.subrange(p, p + 4))
}

/// The `u64` stored little-endian at position `p` of `s`.
pub open spec fn le_u64_at(s: Seq<u8>, p: int) -> u64 {
    spec_u64_from_le_bytes(s.subrange(p, p + 8))
}

/// Reads the little-endian `u16` at `pos`.
pub fn read_u16(data: &[u8], pos: usize) -> (res: u16)
    requires
        pos + 2 <= data@.len(),
    ensures
        res == le_u16_at(data@, pos as int),
{
    let _len = data.len();
    u16_from_le_bytes(slice_subrange(data, pos, pos + 2))
}

/// Reads the little-endian `u32` at `pos`.
pub fn read_u32(data: &[u8], pos: usize) -> (res: u32)
    requires
        pos + 4 <= data@.len(),
    ensures
        res == le_u32_at(data@, pos as int),
{
    let _len = data.len();
    u32_from_le_bytes(slice_subrange(data, pos, pos + 4))
}

/// Reads the little-endian `u64` at `pos`.
pub fn read_u64(data: &[u8], pos: usize) -> (res: u64)
    requires
        pos + 8 <= data@.len(),
    ensures
        res == le_u64_at(data@, pos as int),
{
    let _len = data.len();
    u64_from_le_bytes(slice_subrange(data, pos, pos + 8))
}

/// Appends bytes to a buffer.
pub fn put_bytes(out: &mut Vec<u8>, bytes: Vec<u8>)
    ensures
        final(out)@ == old(out)@ + bytes@,
{
    let mut b = bytes;
    out.append(&mut b);
}

/// Appends the little-endian bytes of a `u16`.
pub fn put_u16(out: &mut Vec<u8>, x: u16)
    ensures
        final(out)@ == old(out)@ + spec_u16_to_le_bytes(x),
{
    put_bytes(out, u16_to_le_bytes(x));
}

/// Appends the little-endian bytes of a `u32`.
pub fn put_u32(out: &mut Vec<u8>, x: u32)
    ensures
        final(out)@ == old(out)@ + spec_u32_to_le_bytes(x),
{
    put_bytes(out, u32_to_le_bytes(x));
}

/// Appends the little-endian bytes of a `u64`.
pub fn put_u64(out: &mut Vec<u8>, x: u64)
    ensures
        final(out)@ == old(out)@ + spec_u64_to_le_bytes(x),
{
    put_bytes(out, u64_to_le_bytes(x));
}

/// Reading back the bytes of integers, wherever they stand, gives the
/// integers.
pub proof fn lemma_le_roundtrip()
    ensures
        forall|x: u16| #[trigger] spec_u16_to_le_bytes(x).len() == 2,
        forall|x: u32| #[trigger] spec_u32_to_le_bytes(x).len() == 4,
        forall|x: u64| #[trigger] spec_u64_to_le_bytes(x).len() == 8,
        forall|a: Seq<u8>, x: u16, b: Seq<u8>|
            #[trigger] le_u16_at(a + spec_u16_to_le_bytes(x) + b, a.len() as int) == x,
        forall|a: Seq<u8>, x: u32, b: Seq<u8>|
            #[trigger] le_u32_at(a + spec_u32_to_le_bytes(x) + b, a.len() as int) == x,
        forall|a: Seq<u8>, x: u64, b: Seq<u8>|
            #[trigger] le_u64_at(a + spec_u64_to_le_bytes(x) + b, a.len() as int) == x,
{
    lemma_auto_spec_u16_to_from_le_bytes();
    lemma_auto_spec_u32_to_from_le_bytes();
    lemma_auto_spec_u64_to_from_le_bytes();
    assert forall|a: Seq<u8>, x: u16, b: Seq<u8>|
        #[trigger] le_u16_at(a + spec_u16_to_le_bytes(x) + b, a.len() as int) == x by {
        let s = a + spec_u16_to_le_bytes(x) + b;
        assert(s.subrange(a.len() as int, a.len() + 2int) =~= spec_u16_to_le_bytes(x));
    }
    assert forall|a: Seq<u8>, x: u32, b: Seq<u8>|
        #[trigger] le_u32_at(a + spec_u32_to_le_bytes(x) + b, a.len() as int) == x by {
        let s = a + spec_u32_to_le_bytes(x) + b;
        assert(s.subrange(a.len() as int, a.len() + 4int) =~= spec_u32_to_le_bytes(x));
    }
    assert forall|a: Seq<u8>, x: u64, b: Seq<u8>|
        #[trigger] le_u64_at(a + spec_u64_to_le_bytes(x) + b, a.len() as int) == x by {
        let s = a + spec_u64_to_le_bytes(x) + b;
        assert(s.subrange(a.len() as int, a.len() + 8int) =~= spec_u64_to_le_bytes(x));
    }
}

} // verus!
