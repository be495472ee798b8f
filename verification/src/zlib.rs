//! zlib compression (through the `flate2` crate), the Adler-32 checksum
//! (through the `adler` crate), and the framing of mode 2 text files.

use vstd::prelude::*;
use vstd::bytes::*;
use std::io::Read;
use std::io::Write;

verus! {

/// Name for the zlib stream that `flate2::write::ZlibEncoder` writes for
/// `data` at `flate2::Compression::best()`.
pub uninterp spec fn zlib_deflated(data: Seq<u8>) -> Seq<u8>;

/// Name for what `flate2::read::ZlibDecoder` reads to the end from `data`:
/// `None` where it reports an error.
pub uninterp spec fn zlib_inflated(data: Seq<u8>) -> Option<Seq<u8>>;

/// Name for what `flate2::write::ZlibDecoder` hands back once all of `data`
/// is written to it and it is finished: `None` where it reports an error.
pub uninterp spec fn zlib_inflated_whole(data: Seq<u8>) -> Option<Seq<u8>>;

/// The two running sums of Adler-32 (RFC 1950) over `data`.
pub open spec fn adler32_sums(data: Seq<u8>) -> (int, int)
    decreases data.len(),
{
    if data.len() == 0 {
        (1, 0)
    } else {
        let (a, b) = adler32_sums(data.drop_last());
        let a1 = (a + data.last()) % 65521;
        (a1, (b + a1) % 65521)
    }
}

/// The Adler-32 checksum of `data`: the second sum above the first.
pub open spec fn adler32_checksum(data: Seq<u8>) -> u32 {
    (adler32_sums(data).1 * 65536 + adler32_sums(data).0) as u32
}

/// The eight big-endian bytes of a `u64`.
pub open spec fn u64_be_bytes(x: u64) -> Seq<u8> {
    spec_u64_to_le_bytes(x).reverse()
}

/// Compresses with `flate2::write::ZlibEncoder` at `Compression::best()`
/// into a `Vec`, which cannot fail. The contract claims that the result is
/// the named stream, that a zlib stream decodes back to the data that it was
/// made from, under either decoder, and that a `Vec` holds no more than
/// `isize::MAX` bytes.
#[verifier::external_body]
fn zlib_compress_best(data: &[u8]) -> (res: Vec<u8>)
    ensures
        res@ == zlib_deflated(data@),
        zlib_inflated(res@) == Some(data@),
        zlib_inflated_whole(res@) == Some(data@),
        res@.len() <= isize::MAX,
{
    let mut encoder = flate2::write::ZlibEncoder::new(Vec::new(), flate2::Compression::best());
    encoder.write_all(data).expect("compressing into memory");
    encoder.finish().expect("compressing into memory")
}

/// Reads `data` to the end through `flate2::read::ZlibDecoder`; an error
/// becomes `None`. The contract claims that the result is the named one.
#[verifier::external_body]
fn zlib_decompress_read(data: &[u8]) -> (res: Option<Vec<u8>>)
    ensures
        res is Some <==> zlib_inflated(data@) is Some,
        res matches Some(v) ==> zlib_inflated(data@) == Some(v@),
{
    let mut decoder = flate2::read::ZlibDecoder::new(data);
    let mut output = Vec::new();
    match decoder.read_to_end(&mut output) {
        Ok(_) => Some(output),
        Err(_) => None,
    }
}

/// Writes all of `data` into a `flate2::write::ZlibDecoder` and finishes it;
/// an error becomes `None`. The contract claims that the result is the named
/// one.
#[verifier::external_body]
fn zlib_decompress_write(data: &[u8]) -> (res: Option<Vec<u8>>)
    ensures
        res is Some <==> zlib_inflated_whole(data@) is Some,
        res matches Some(v) ==> zlib_inflated_whole(data@) == Some(v@),
{
    let mut decoder = flate2::write::ZlibDecoder::new(Vec::new());
    match decoder.write_all(data) {
        Ok(()) => decoder.finish().ok(),
        Err(_) => None,
    }
}

/// `adler::adler32_slice`, which its documentation says computes the
/// Adler-32 checksum of the slice. The contract claims the RFC 1950 value.
#[verifier::external_body]
fn adler32_of(data: &[u8]) -> (res: u32)
    ensures
        res == adler32_checksum(data@),
{
    adler::adler32_slice(data)
}

/// The eight big-endian bytes of a `u64`.
fn push_u64_be(out: &mut Vec<u8>, x: u64)
    ensures
        final(out)@ == old(out)@ + u64_be_bytes(x),
{
    let le = u64_to_le_bytes(x);
    proof {
        lemma_auto_spec_u64_to_from_le_bytes();
    }
    let mut i: usize = 8;
    let ghost start = out@;
    while i > 0
        invariant
            le@ == spec_u64_to_le_bytes(x),
            le@.len() == 8,
            i <= 8,
            out@ =~= start + u64_be_bytes(x).take(8 - i),
        decreases i,
    {
        i = i - 1;
        out.push(le[i]);
    }
    assert(u64_be_bytes(x).take(8) =~= u64_be_bytes(x));
}

/// Compresses `input` into a zlib stream at the best compression level.
pub fn compress(input: &[u8]) -> (res: Vec<u8>)
    ensures
        res@ == zlib_deflated(input@),
        zlib_inflated(res@) == Some(input@),
{
    zlib_compress_best(input)
}

/// Decompresses a zlib stream, as far as it goes; `None` where the decoder
/// reports an error.
pub fn decompress(input: &[u8]) -> (res: Option<Vec<u8>>)
    ensures
        res is Some <==> zlib_inflated(input@) is Some,
        res matches Some(v) ==> zlib_inflated(input@) == Some(v@),
{
    zlib_decompress_read(input)
}

/// Compresses `input` and computes the Adler-32 checksum of the
/// uncompressed bytes.
pub fn compress_stream(input: &[u8]) -> (res: (Vec<u8>, u32))
    ensures
        res.0@ == zlib_deflated(input@),
        zlib_inflated(res.0@) == Some(input@),
        res.1 == adler32_checksum(input@),
{
    let data = zlib_compress_best(input);
    let sum = adler32_of(input);
    (data, sum)
}

/// The Adler-32 checksum of `input`.
pub fn adler32(input: &[u8]) -> (res: u32)
    ensures
        res == adler32_checksum(input@),
{
    adler32_of(input)
}

/// The bytes of a mode 2 text file after its header: the length of the
/// whole frame and the length of the uncompressed data, both big-endian
/// `u64`, then the zlib stream.
pub open spec fn mode2_frame(data: Seq<u8>) -> Seq<u8> {
    u64_be_bytes((zlib_deflated(data).len() + 16) as u64) + u64_be_bytes(data.len() as u64)
        + zlib_deflated(data)
}

/// Compresses text for mode 2 and puts the 16-byte frame header in front.
/// What follows the frame header decodes back to `data` by
/// `decompress_zlib`.
pub fn compress_zlib(data: &[u8]) -> (res: Vec<u8>)
    ensures
        res@ == mode2_frame(data@),
        res@.subrange(16, res@.len() as int) == zlib_deflated(data@),
        zlib_inflated_whole(res@.subrange(16, res@.len() as int)) == Some(data@),
{
    let raw_len = data.len() as u64;
    let compress_data = zlib_compress_best(data);
    let compress_len = (compress_data.len() + 16) as u64;
    let mut header: Vec<u8> = Vec::new();
    push_u64_be(&mut header, compress_len);
    push_u64_be(&mut header, raw_len);
    proof {
        lemma_auto_spec_u64_to_from_le_bytes();
    }
    let mut i: usize = 0;
    let ghost start = header@;
    while i < compress_data.len()
        invariant
            i <= compress_data@.len(),
            start.len() == 16,
            header@ =~= start + compress_data@.take(i as int),
        decreases compress_data@.len() - i,
    {
        header.push(compress_data[i]);
        i = i + 1;
    }
    proof {
        assert(compress_data@.take(compress_data@.len() as int) =~= compress_data@);
        assert(header@.subrange(16, header@.len() as int) =~= compress_data@);
    }
    header
}

/// Decompresses the zlib stream of a mode 2 text file (what follows its
/// frame header); `None` where the decoder reports an error.
pub fn decompress_zlib(data: &[u8]) -> (res: Option<Vec<u8>>)
    ensures
        res is Some <==> zlib_inflated_whole(data@) is Some,
        res matches Some(v) ==> zlib_inflated_whole(data@) == Some(v@),
{
    zlib_decompress_write(data)
}

} // verus!
