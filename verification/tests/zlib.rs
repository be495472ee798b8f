use krkr_tools::zlib::{adler32, compress, compress_stream, compress_zlib, decompress, decompress_zlib};

#[test]
fn compress_then_decompress() {
    let data = b"hello hello hello hello zlib".to_vec();
    let c = compress(&data);
    assert_eq!(&c[..2], &[0x78u8, 0xDA][..]);
    assert_eq!(decompress(&c), Some(data.clone()));
    assert_eq!(decompress(&[1, 2, 3, 4]), None);
}

#[test]
fn compress_stream_gives_data_and_checksum() {
    let data = b"Wikipedia".to_vec();
    let (c, sum) = compress_stream(&data);
    assert_eq!(sum, 0x11E6_0398);
    assert_eq!(c, compress(&data));
    assert_eq!(adler32(&data), 0x11E6_0398);
    assert_eq!(adler32(&[]), 1);
}

#[test]
fn mode2_frame() {
    let data = vec![7u8; 1000];
    let framed = compress_zlib(&data);
    let total = u64::from_be_bytes(framed[0..8].try_into().unwrap());
    let raw = u64::from_be_bytes(framed[8..16].try_into().unwrap());
    assert_eq!(total as usize, framed.len());
    assert_eq!(raw, 1000);
    assert_eq!(decompress_zlib(&framed[16..]), Some(data));
    assert_eq!(decompress_zlib(&[0x78, 0xDA, 0xFF]), None);
}
