//! The framing of blobs in an OSM PBF file.
//!
//! A file is a sequence of blobs, each behind the length of its header (four bytes, most
//! significant first) and the header, which names the blob's type and length. Blobs that
//! hold no map data are skipped. The bytes are read and the header is decoded by the
//! caller, which performs one action after the other and hands back what came of it.

use vstd::prelude::*;

use crate::bytes::utf8_roundtrip;
use crate::text::same_bytes;

verus! {

#[derive(Debug, Clone, Copy, PartialEq, Eq, Structural)]
pub enum OsmBlobReaderError {
    /// Failed to read the file.
    Read,
    /// Failed to decode a file segment.
    Decode,
}

/// What is being read.
#[derive(Debug, Clone, Copy, PartialEq, Eq, Structural)]
pub enum BlobState {
    HeaderLen,
    Header,
    Blob,
}

/// What came of an action.
pub enum BlobEvent<'a> {
    /// The first bytes of a header's length were read.
    Len([u8; 4]),
    /// The bytes of a header were read and decoded.
    Header { kind: &'a str, datasize: i32 },
    /// The bytes of a blob were read.
    Blob,
    /// The blob was skipped.
    Skipped,
    /// The file ended before all bytes were read.
    EndOfFile,
    ReadFailed,
    DecodeFailed,
}

/// What to do next.
#[derive(Debug, Clone, Copy, PartialEq, Eq, Structural)]
pub enum BlobAction {
    Read { len: usize },
    Skip { by: i64 },
    /// The bytes just read are the next data blob.
    Yield,
    /// There is no further data blob.
    End,
    Fail(OsmBlobReaderError),
}

/// The type of data blobs.
pub open spec fn is_data(kind: Seq<char>) -> bool {
    kind == "OSMData"@
}

/// The length in four bytes, most significant first.
pub open spec fn be_value(b: [u8; 4]) -> nat {
    (b[0] * 0x100_0000 + b[1] * 0x1_0000 + b[2] * 0x100 + b[3]) as nat
}

/// An event that can come in a state; lengths are not negative.
pub open spec fn expected(state: BlobState, event: BlobEvent) -> bool {
    match event {
        BlobEvent::Len(b) => state == BlobState::HeaderLen && be_value(b) < 0x8000_0000,
        BlobEvent::Header { kind, datasize } => state == BlobState::Header && (is_data(kind@)
            ==> datasize >= 0),
        BlobEvent::Blob => state == BlobState::Blob,
        BlobEvent::Skipped => state == BlobState::Header,
        BlobEvent::EndOfFile => true,
        BlobEvent::ReadFailed => true,
        BlobEvent::DecodeFailed => true,
    }
}

/// The next state and action.
pub open spec fn next_of(state: BlobState, event: BlobEvent) -> (BlobState, BlobAction) {
    match event {
        BlobEvent::Len(b) => (BlobState::Header, BlobAction::Read { len: be_value(b) as usize }),
        BlobEvent::Header { kind, datasize } => if is_data(kind@) {
            (BlobState::Blob, BlobAction::Read { len: datasize as usize })
        } else {
            (BlobState::Header, BlobAction::Skip { by: datasize as i64 })
        },
        BlobEvent::Blob => (BlobState::HeaderLen, BlobAction::Yield),
        BlobEvent::Skipped => (BlobState::HeaderLen, BlobAction::Read { len: 4 }),
        BlobEvent::EndOfFile => (state, BlobAction::End),
        BlobEvent::ReadFailed => (state, BlobAction::Fail(OsmBlobReaderError::Read)),
        BlobEvent::DecodeFailed => (state, BlobAction::Fail(OsmBlobReaderError::Decode)),
    }
}

/// The header length in its four bytes; none if it is negative as a signed number.
pub fn header_len(b: [u8; 4]) -> (r: Option<usize>)
    ensures
        r == (if be_value(b) < 0x8000_0000 {
            Some(be_value(b) as usize)
        } else {
            None
        }),
{
    let v: u64 = b[0] as u64 * 0x100_0000 + b[1] as u64 * 0x1_0000 + b[2] as u64 * 0x100 + b[3] as u64;
    if v < 0x8000_0000 {
        Some(v as usize)
    } else {
        None
    }
}

/// Whether a blob type is that of data blobs.
pub fn is_data_type(kind: &str) -> (r: bool)
    ensures
        r == is_data(kind@),
{
    let want: &str = "OSMData";
    let r: bool = same_bytes(kind.as_bytes(), want.as_bytes());
    proof {
        utf8_roundtrip(kind@);
        utf8_roundtrip(want@);
    }
    r
}

/// Begin to read the next blob.
pub fn read_next_blob() -> (r: (BlobState, BlobAction))
    ensures
        r == (BlobState::HeaderLen, BlobAction::Read { len: 4 }),
{
    (BlobState::HeaderLen, BlobAction::Read { len: 4 })
}

/// Go on reading after an action.
pub fn next_step(state: BlobState, event: &BlobEvent) -> (r: (BlobState, BlobAction))
    requires
        expected(state, *event),
    ensures
        r == next_of(state, *event),
{
    match event {
        BlobEvent::Len(b) => match header_len(*b) {
            Some(len) => (BlobState::Header, BlobAction::Read { len }),
            None => (state, BlobAction::Fail(OsmBlobReaderError::Decode)),
        },
        BlobEvent::Header { kind, datasize } => if is_data_type(kind) {
            (BlobState::Blob, BlobAction::Read { len: *datasize as usize })
        } else {
            (BlobState::Header, BlobAction::Skip { by: *datasize as i64 })
        },
        BlobEvent::Blob => (BlobState::HeaderLen, BlobAction::Yield),
        BlobEvent::Skipped => (BlobState::HeaderLen, BlobAction::Read { len: 4 }),
        BlobEvent::EndOfFile => (state, BlobAction::End),
        BlobEvent::ReadFailed => (state, BlobAction::Fail(OsmBlobReaderError::Read)),
        BlobEvent::DecodeFailed => (state, BlobAction::Fail(OsmBlobReaderError::Decode)),
    }
}

/// Only the bytes of a data blob are yielded: a blob is read only behind a header that
/// names a data blob, and all of it.
pub proof fn only_data_is_yielded(kind: &str, datasize: i32)
    ensures
        ({
            let (state, action) = next_of(BlobState::Header, BlobEvent::Header { kind, datasize });
            &&& state == BlobState::Blob <==> is_data(kind@)
            &&& state == BlobState::Blob ==> action == (BlobAction::Read { len: datasize as usize })
        }),
        forall|state: BlobState, event: BlobEvent|
            #![trigger next_of(state, event)]
            expected(state, event) && next_of(state, event).1 == BlobAction::Yield ==> state
                == BlobState::Blob,
{
}

} // verus!
