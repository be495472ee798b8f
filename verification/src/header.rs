//! The five-byte header that opens a scrambled KiriKiri text file and names
//! its mode.

use vstd::prelude::*;

verus! {

/// The header of a text scrambled in mode 0.
pub const MODE0: [u8; 5] = [0xFE, 0xFE, 0x00, 0xFF, 0xFE];

/// The header of a text scrambled in mode 1.
pub const MODE1: [u8; 5] = [0xFE, 0xFE, 0x01, 0xFF, 0xFE];

/// The header of a text compressed in mode 2.
pub const MODE2: [u8; 5] = [0xFE, 0xFE, 0x02, 0xFF, 0xFE];

/// The way a text file is scrambled.
#[derive(PartialEq, Eq, Structural, Clone, Copy, Debug)]
pub enum Mode {
    MODE0,
    MODE1,
    MODE2,
}

/// A header that names no known mode.
#[derive(PartialEq, Eq, Structural, Clone, Copy, Debug)]
pub struct UnknownHeader;

/// The header bytes of a mode.
pub open spec fn mode_header(mode: Mode) -> Seq<u8> {
    seq![0xFEu8, 0xFEu8, mode_number(mode), 0xFFu8, 0xFEu8]
}

/// The number that the third header byte gives a mode.
pub open spec fn mode_number(mode: Mode) -> u8 {
    match mode {
        Mode::MODE0 => 0u8,
        Mode::MODE1 => 1u8,
        Mode::MODE2 => 2u8,
    }
}

/// The mode that a header names, if it names one.
pub open spec fn header_mode(header: Seq<u8>) -> Option<Mode> {
    if header == mode_header(Mode::MODE0) {
        Some(Mode::MODE0)
    } else if header == mode_header(Mode::MODE1) {
        Some(Mode::MODE1)
    } else if header == mode_header(Mode::MODE2) {
        Some(Mode::MODE2)
    } else {
        None
    }
}

/// The header bytes written for a mode.
pub fn header_bytes(mode: Mode) -> (res: [u8; 5])
    ensures
        res@ == mode_header(mode),
{
    let res = match mode {
        Mode::MODE0 => MODE0,
        Mode::MODE1 => MODE1,
        Mode::MODE2 => MODE2,
    };
    assert(res@ =~= mode_header(mode));
    res
}

/// Reads the mode from a header; a header that is none of `MODE0`, `MODE1`
/// and `MODE2` is refused.
pub fn file_mode(header: [u8; 5]) -> (res: Result<Mode, UnknownHeader>)
    ensures
        res matches Ok(m) ==> header_mode(header@) == Some(m),
        res is Err <==> header_mode(header@) is None,
{
    if header[0] == 0xFE && header[1] == 0xFE && header[3] == 0xFF && header[4] == 0xFE {
        let mode = if header[2] == 0 {
            Some(Mode::MODE0)
        } else if header[2] == 1 {
            Some(Mode::MODE1)
        } else if header[2] == 2 {
            Some(Mode::MODE2)
        } else {
            None
        };
        match mode {
            Some(m) => {
                assert(header@ =~= mode_header(m));
                Ok(m)
            },
            None => {
                assert(header@[2] != 0 && header@[2] != 1 && header@[2] != 2);
                assert(header@ != mode_header(Mode::MODE0));
                assert(header@[2] != mode_header(Mode::MODE0)[2]);
                Err(UnknownHeader)
            },
        }
    } else {
        assert(header_mode(header@) is None) by {
            if header_mode(header@) is Some {
                assert(header@[0] == 0xFE);
            }
        }
        Err(UnknownHeader)
    }
}

/// Every mode's header is read back as that mode.
pub proof fn lemma_header_roundtrip(mode: Mode)
    ensures
        header_mode(mode_header(mode)) == Some(mode),
{
    let h = mode_header(mode);
    if mode != Mode::MODE0 {
        assert(h[2] != mode_header(Mode::MODE0)[2]);
    }
    if mode == Mode::MODE2 {
        assert(h[2] != mode_header(Mode::MODE1)[2]);
    }
}

} // verus!
