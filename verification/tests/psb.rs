use krkr_tools::psb::{PsbError, PsbHeader};

fn header(version: u16) -> PsbHeader {
    PsbHeader {
        version,
        header_encrypt: 0,
        header_length: 0x38,
        offset_names: 1,
        offset_strings: 2,
        offset_strings_data: 3,
        offset_chunk_offsets: 4,
        offset_chunk_lengths: 5,
        offset_chunk_data: 6,
        offset_entries: 7,
        checksum: if version >= 3 { Some(0xABCD) } else { None },
        offset_extra_chunk_offsets: if version >= 4 { Some(8) } else { None },
        offset_extra_chunk_lengths: if version >= 4 { Some(9) } else { None },
        offset_extra_chunk_data: if version >= 4 { Some(10) } else { None },
    }
}

#[test]
fn psb_header_round_trips_for_each_version() {
    for (version, len) in [(1u16, 40usize), (2, 40), (3, 44), (4, 56)] {
        let mut out = Vec::new();
        header(version).write(&mut out);
        assert_eq!(out.len(), len);
        assert_eq!(&out[..4], b"PSB\0");
        let (h, k) = PsbHeader::parse(&out).unwrap();
        assert_eq!(k, len);
        assert_eq!(h.version, version);
        assert_eq!(h.offset_entries, 7);
        assert_eq!(h.checksum, header(version).checksum);
        assert_eq!(h.offset_extra_chunk_data, header(version).offset_extra_chunk_data);
    }
}

#[test]
fn psb_header_errors() {
    assert_eq!(PsbHeader::parse(b"PS").err(), Some(PsbError::Truncated));
    assert_eq!(PsbHeader::parse(b"PSC\0\x01\x00").err(), Some(PsbError::BadMagic));
    assert_eq!(PsbHeader::parse(b"PSB\0\x05\x00").err(), Some(PsbError::UnsupportedVersion));
    assert_eq!(PsbHeader::parse(b"PSB\0\x00\x00").err(), Some(PsbError::UnsupportedVersion));
    assert_eq!(PsbHeader::parse(b"PSB\0\x03\x00rest").err(), Some(PsbError::Truncated));
}
