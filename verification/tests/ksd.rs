use krkr_tools::encoding::{
    is_utf16le_text, string_to_utf16le, utf16le_to_string, utf16le_to_utf8, utf8_to_utf16le,
};
use krkr_tools::header::{file_mode, Mode, UnknownHeader, MODE0, MODE1, MODE2};
use krkr_tools::ksd::{descramble_ksd, scramble_ksd, KsdError};
use krkr_tools::scramble::{descramble_mode0, descramble_mode1, scramble_mode0, scramble_mode1};

#[test]
fn file_mode_reads_each_header() {
    assert_eq!(file_mode(MODE0), Ok(Mode::MODE0));
    assert_eq!(file_mode(MODE1), Ok(Mode::MODE1));
    assert_eq!(file_mode(MODE2), Ok(Mode::MODE2));
    assert_eq!(file_mode([0xFE, 0xFE, 0x03, 0xFF, 0xFE]), Err(UnknownHeader));
    assert_eq!(file_mode([0xFF, 0xFE, 0x00, 0xFF, 0xFE]), Err(UnknownHeader));
}

#[test]
fn mode1_swaps_bit_pairs() {
    let mut data = vec![0x12u8, 0xFF, 0xA5, 0x01, 0x7E];
    scramble_mode1(&mut data);
    assert_eq!(data, vec![0x21u8, 0xFF, 0x5A, 0x02, 0x7E]);
    descramble_mode1(&mut data);
    assert_eq!(data, vec![0x12u8, 0xFF, 0xA5, 0x01, 0x7E]);
}

#[test]
fn mode0_scrambles_chunks_and_keeps_control_units() {
    let mut data = vec![0x41u8, 0x00, 0x0A, 0x00, 0x42, 0x30];
    scramble_mode0(&mut data);
    assert_eq!(data, vec![0x40u8, 0x40, 0x0A, 0x00, 0x43, 0x72]);
    descramble_mode0(&mut data);
    assert_eq!(data, vec![0x41u8, 0x00, 0x0A, 0x00, 0x42, 0x30]);
}

#[test]
fn mode0_descramble_leaves_odd_byte() {
    let mut data = vec![0x40u8, 0x40, 0x99];
    descramble_mode0(&mut data);
    assert_eq!(data, vec![0x41u8, 0x00, 0x99]);
}

#[test]
fn mode0_pair_that_does_not_come_back() {
    // 0x03 0x02 scrambles to 0x02 0x00, which mode 0 keeps as it is.
    let mut data = vec![0x03u8, 0x02];
    scramble_mode0(&mut data);
    assert_eq!(data, vec![0x02u8, 0x00]);
    descramble_mode0(&mut data);
    assert_eq!(data, vec![0x02u8, 0x00]);
}

#[test]
fn utf8_and_utf16le_convert_both_ways() {
    let text = "héllo, 世界 😀".as_bytes();
    let utf16 = utf8_to_utf16le(text);
    let expected: Vec<u8> = "héllo, 世界 😀"
        .encode_utf16()
        .flat_map(|u| u.to_le_bytes())
        .collect();
    assert_eq!(utf16, expected);
    assert!(is_utf16le_text(&utf16));
    assert_eq!(utf16le_to_utf8(&utf16), text.to_vec());
}

#[test]
fn utf16le_odd_byte_is_left_out() {
    assert_eq!(utf16le_to_utf8(&[0x41, 0x00, 0x42]), b"A".to_vec());
}

#[test]
fn lone_surrogate_is_not_text() {
    assert!(!is_utf16le_text(&[0x00, 0xD8, 0x41, 0x00]));
    assert!(!is_utf16le_text(&[0x00, 0xDC]));
    assert!(is_utf16le_text(&[0x3D, 0xD8, 0x00, 0xDE]));
}

#[test]
fn string_and_utf16_units_convert_both_ways() {
    let units = string_to_utf16le(String::from("a😀é"));
    assert_eq!(units, vec![0x61u16, 0xD83D, 0xDE00, 0xE9]);
    assert_eq!(utf16le_to_string(&units), String::from("a😀é"));
}

#[test]
fn ksd_mode2_gives_back_text_after_bom() {
    let text = "第一行\nsecond line".as_bytes();
    let file = scramble_ksd(text, Mode::MODE2);
    assert_eq!(&file[..5], &MODE2[..]);
    let total = u64::from_be_bytes(file[5..13].try_into().unwrap());
    let raw = u64::from_be_bytes(file[13..21].try_into().unwrap());
    assert_eq!(total as usize, file.len() - 5);
    assert_eq!(raw as usize, utf8_to_utf16le(text).len());
    let mut expected = vec![0xEFu8, 0xBB, 0xBF];
    expected.extend_from_slice(text);
    assert_eq!(descramble_ksd(&file), Ok(expected));
}

#[test]
fn ksd_mode0_and_mode1_layout() {
    let text = b"ABCD";
    let file0 = scramble_ksd(text, Mode::MODE0);
    assert_eq!(&file0[..5], &MODE0[..]);
    assert_eq!(&file0[5..], &[0x40u8, 0x40, 0x43, 0x42, 0x42, 0x42, 0x45, 0x44][..]);
    let file1 = scramble_ksd(text, Mode::MODE1);
    assert_eq!(&file1[..5], &MODE1[..]);
    assert_eq!(file1.len(), 13);
}

#[test]
fn ksd_descramble_skips_five_bytes_after_header() {
    // The five bytes after the header are skipped; then "AB" scrambled.
    let mut file = MODE0.to_vec();
    file.extend_from_slice(&[1, 2, 3, 4, 5]);
    file.extend_from_slice(&[0x40, 0x40, 0x43, 0x42]);
    assert_eq!(descramble_ksd(&file), Ok(b"AB".to_vec()));
    let mut file1 = MODE1.to_vec();
    file1.extend_from_slice(&[9, 9, 9, 9, 9]);
    file1.extend_from_slice(&[0x82, 0x00]);
    assert_eq!(descramble_ksd(&file1), Ok(b"A".to_vec()));
}

#[test]
fn ksd_errors() {
    assert_eq!(descramble_ksd(&[0xFE, 0xFE]), Err(KsdError::TooShort));
    assert_eq!(descramble_ksd(&[0xFE, 0xFE, 0x09, 0xFF, 0xFE, 0, 0, 0, 0, 0]), Err(KsdError::UnknownHeader));
    assert_eq!(descramble_ksd(&MODE0), Err(KsdError::TooShort));
    let mut bad2 = MODE2.to_vec();
    bad2.extend_from_slice(&[0u8; 16]);
    bad2.extend_from_slice(&[1, 2, 3]);
    assert_eq!(descramble_ksd(&bad2), Err(KsdError::BadCompressedData));
    let mut lone = MODE1.to_vec();
    lone.extend_from_slice(&[0, 0, 0, 0, 0]);
    let mut surrogate = vec![0x00u8, 0xD8];
    scramble_mode1(&mut surrogate);
    lone.extend_from_slice(&surrogate);
    assert_eq!(descramble_ksd(&lone), Err(KsdError::InvalidUtf16));
}

#[test]
fn ksd_mode0_file_loses_what_the_skip_takes() {
    // Descrambling skips five bytes after the header that scrambling does
    // not write, so a mode 0 file does not give its text back.
    let file = scramble_ksd(b"ABCD", Mode::MODE0);
    assert_eq!(descramble_ksd(&file), Ok(vec![0xDDu8, 0x83]));
}
