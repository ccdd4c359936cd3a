//! The on-disk file format of a saved index.
//!
//! ```text
//! [magic: 4 bytes "VEXF"]
//! [version: u16, little-endian]
//! [payload: the serialized index]
//! ```
//!
//! The magic and version bytes let the format evolve without silently
//! misreading old files. This module builds and checks the header; the
//! payload's encoding is the caller's.

use vstd::prelude::*;

verus! {

/// The format version this library writes and reads.
pub const VERSION: u16 = 1u16;

/// Length of the header in bytes.
pub const HEADER_LEN: usize = 6usize;

/// The magic bytes `"VEXF"`.
pub open spec fn spec_magic() -> Seq<u8> {
    seq![0x56u8, 0x45u8, 0x58u8, 0x46u8]
}

/// The header of a file of format `version`.
pub open spec fn spec_header(version: u16) -> Seq<u8> {
    spec_magic() + seq![(version % 256) as u8, (version / 256) as u8]
}

/// The version that bytes 4 and 5 of a header encode.
pub open spec fn spec_version_of(bytes: Seq<u8>) -> u16 {
    (bytes[4] + 256 * bytes[5]) as u16
}

/// Why a file's header was refused.
#[derive(Debug, Clone, Copy, PartialEq, Eq, Structural)]
pub enum FormatError {
    /// The file ends before its header does.
    Truncated,
    /// The file does not start with the magic bytes; not a vex index file.
    BadMagic,
    /// The file is of another format version.
    UnsupportedVersion {
        /// The version the file declares.
        got: u16,
        /// The version this library reads.
        expected: u16,
    },
}

/// The header of files written by this library.
pub fn header() -> (h: Vec<u8>)
    ensures
        h@ == spec_header(VERSION),
{
    let mut h: Vec<u8> = Vec::with_capacity(HEADER_LEN);
    h.push(0x56u8);
    h.push(0x45u8);
    h.push(0x58u8);
    h.push(0x46u8);
    h.push((VERSION % 256) as u8);
    h.push((VERSION / 256) as u8);
    assert(h@ =~= spec_header(VERSION));
    h
}

/// The bytes of a file holding `payload`: the header, then the payload.
pub fn frame(payload: &[u8]) -> (file: Vec<u8>)
    ensures
        file@ == spec_header(VERSION) + payload@,
{
    let mut file = header();
    let mut i: usize = 0;
    while i < payload.len()
        invariant
            i <= payload@.len(),
            file@ == spec_header(VERSION) + payload@.subrange(0, i as int),
        decreases payload@.len() - i,
    {
        file.push(payload[i]);
        assert(payload@.subrange(0, i + 1) =~= payload@.subrange(0, i as int).push(payload@[i as int]));
        i = i + 1;
    }
    assert(payload@.subrange(0, payload@.len() as int) =~= payload@);
    file
}

/// Check the header of a file and return where its payload starts. The
/// magic is read first: a file shorter than it is `Truncated`, a file that
/// does not start with it is `BadMagic`; then the version: a file that ends
/// inside it is `Truncated`, another version is `UnsupportedVersion`.
pub fn check_header(bytes: &[u8]) -> (r: Result<usize, FormatError>)
    ensures
        bytes@.len() < 4 ==> r == Err::<usize, FormatError>(FormatError::Truncated),
        bytes@.len() >= 4 && bytes@.subrange(0, 4) != spec_magic() ==> r == Err::<usize, FormatError>(
            FormatError::BadMagic,
        ),
        bytes@.len() >= 4 && bytes@.subrange(0, 4) == spec_magic() && bytes@.len() < 6 ==> r == Err::<
            usize,
            FormatError,
        >(FormatError::Truncated),
        bytes@.len() >= 6 && bytes@.subrange(0, 4) == spec_magic() && spec_version_of(bytes@) != VERSION ==> r
            == Err::<usize, FormatError>(
            FormatError::UnsupportedVersion { got: spec_version_of(bytes@), expected: VERSION },
        ),
        bytes@.len() >= 6 && bytes@.subrange(0, 4) == spec_magic() && spec_version_of(bytes@) == VERSION ==> r
            == Ok::<usize, FormatError>(HEADER_LEN),
{
    if bytes.len() < 4 {
        return Err(FormatError::Truncated);
    }
    if bytes[0] != 0x56u8 || bytes[1] != 0x45u8 || bytes[2] != 0x58u8 || bytes[3] != 0x46u8 {
        proof {
            if bytes@.subrange(0, 4) == spec_magic() {
                assert(bytes@.subrange(0, 4)[0] == bytes@[0]);
                assert(bytes@.subrange(0, 4)[1] == bytes@[1]);
                assert(bytes@.subrange(0, 4)[2] == bytes@[2]);
                assert(bytes@.subrange(0, 4)[3] == bytes@[3]);
            }
        }
        return Err(FormatError::BadMagic);
    }
    assert(bytes@.subrange(0, 4) =~= spec_magic());
    if bytes.len() < 6 {
        return Err(FormatError::Truncated);
    }
    let version: u16 = bytes[4] as u16 + (bytes[5] as u16) * 256u16;
    if version != VERSION {
        return Err(FormatError::UnsupportedVersion { got: version, expected: VERSION });
    }
    Ok(HEADER_LEN)
}

/// A framed payload reads back: its header is accepted and the payload
/// follows it unchanged.
pub proof fn lemma_frame_round_trip(payload: Seq<u8>)
    ensures
        (spec_header(VERSION) + payload).len() >= 6,
        (spec_header(VERSION) + payload).subrange(0, 4) == spec_magic(),
        spec_version_of(spec_header(VERSION) + payload) == VERSION,
        (spec_header(VERSION) + payload).subrange(HEADER_LEN as int, (spec_header(VERSION) + payload).len() as int)
            == payload,
{
    let f = spec_header(VERSION) + payload;
    assert(f.subrange(0, 4) =~= spec_magic());
    assert(f.subrange(6, f.len() as int) =~= payload);
}

} // verus!
