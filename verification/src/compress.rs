//! Tile payloads are stored as zstd frames.

use vstd::prelude::*;

use crate::decode::{decode_uncompressed, DecodedTile};
use crate::format::{build_tile, records_view};
use crate::record::{RecordView, TileRecord};
use crate::tile_law::{record_contents, records_fit, tile_roundtrip};
use crate::tile_model::{parts_of, tile_at, tile_bytes, TileContents};

verus! {

/// zstd level for tile payloads.
pub const ZSTD_LEVEL: i32 = 9;

/// The error that `zstd` reports with.
#[verifier::external_type_specification]
#[verifier::external_body]
pub struct ExIoError(std::io::Error);

/// The data of a byte string of zstd frames that keep to the format; nothing for any
/// other. What `zstd::decode_all` answers to bytes that do not keep to it is left open: it
/// refuses most of them, and how strictly depends on the machine.
pub uninterp spec fn zstd_decoded(compressed: Seq<u8>) -> Option<Seq<u8>>;

/// `blob` is one of the frames that `zstd::bulk::compress` makes of data at a level.
/// Machines of different byte order may make different ones.
pub uninterp spec fn zstd_compresses(data: Seq<u8>, level: i32, blob: Seq<u8>) -> bool;

/// `zstd::decode_all`: the data of frames that keep to the zstd format. Nothing is said of
/// its answer to other bytes.
#[verifier::external_body]
fn zstd_decode_all(compressed: &[u8]) -> (r: Result<Vec<u8>, std::io::Error>)
    ensures
        match r {
            Ok(data) => zstd_decoded(compressed@) is Some ==> zstd_decoded(compressed@) == Some(
                data@,
            ),
            Err(_) => zstd_decoded(compressed@) is None,
        },
{
    zstd::decode_all(compressed)
}

/// `zstd::bulk::compress`: the data as one zstd frame, which decompresses to the
/// data. Whether the compressor can be set up is up to the machine.
#[verifier::external_body]
fn zstd_bulk_compress(data: &[u8], level: i32) -> (r: Result<Vec<u8>, std::io::Error>)
    ensures
        r matches Ok(blob) ==> zstd_compresses(data@, level, blob@) && zstd_decoded(blob@)
            == Some(data@),
{
    zstd::bulk::compress(data, level)
}

/// Why a stored tile could not be read.
#[derive(Debug, Clone, Copy, PartialEq, Eq, Structural)]
pub enum DecodeError {
    /// The blob is no zstd frame.
    Compression,
    /// The decompressed bytes are no tile.
    Malformed,
}

/// What a blob holds by the decompressor's answer: the tile in the data, if there are any.
pub open spec fn answered_tile(answer: Option<Seq<u8>>) -> Result<TileContents, DecodeError> {
    match answer {
        None => Err(DecodeError::Compression),
        Some(raw) => match tile_at(raw) {
            Some(t) => Ok(t),
            None => Err(DecodeError::Malformed),
        },
    }
}

/// What a stored blob holds.
pub open spec fn stored_tile(compressed: Seq<u8>) -> Result<TileContents, DecodeError> {
    answered_tile(zstd_decoded(compressed))
}

/// What comes of some answer of the decompressor.
pub open spec fn is_answered(r: Result<TileContents, DecodeError>) -> bool {
    exists|answer: Option<Seq<u8>>| r == #[trigger] answered_tile(answer)
}

pub open spec fn tile_view(r: Result<DecodedTile, DecodeError>) -> Result<
    TileContents,
    DecodeError,
> {
    match r {
        Ok(t) => Ok(t@),
        Err(e) => Err(e),
    }
}

pub open spec fn answer_view(answer: Result<Vec<u8>, std::io::Error>) -> Option<Seq<u8>> {
    match answer {
        Ok(raw) => Some(raw@),
        Err(_) => None,
    }
}

/// The tile in the decompressor's answer.
pub fn decode_answer(answer: Result<Vec<u8>, std::io::Error>) -> (r: Result<
    DecodedTile,
    DecodeError,
>)
    ensures
        tile_view(r) == answered_tile(answer_view(answer)),
{
    match answer {
        Err(_) => Err(DecodeError::Compression),
        Ok(raw) => match decode_uncompressed(&raw) {
            Some(t) => Ok(t),
            None => Err(DecodeError::Malformed),
        },
    }
}

/// Decode a compressed tile blob (as stored in the archive) into geometry. Of a blob that
/// does not keep to the zstd format the decompressor decides, and `decode_answer` says what
/// comes of it.
pub fn decode_tile(compressed: &[u8]) -> (r: Result<DecodedTile, DecodeError>)
    ensures
        zstd_decoded(compressed@) is Some ==> tile_view(r) == stored_tile(compressed@),
        is_answered(tile_view(r)),
{
    decode_answer(zstd_decode_all(compressed))
}

/// The compressor could not be set up.
#[derive(Debug, Clone, Copy, PartialEq, Eq, Structural)]
pub struct CompressError;

/// What the compressor's answer is stored as: its blob where it gave one, as it is, and
/// the error where it gave none.
pub fn stored_blob(answer: Result<Vec<u8>, std::io::Error>) -> (r: Result<Vec<u8>, CompressError>)
    ensures
        match answer {
            Ok(blob) => r == Ok::<Vec<u8>, CompressError>(blob),
            Err(_) => r == Err::<Vec<u8>, CompressError>(CompressError),
        },
{
    match answer {
        Ok(blob) => Ok(blob),
        Err(_) => Err(CompressError),
    }
}

/// Build the tile of `records` and compress it for storage. Whether there is a blob is up
/// to the compressor, which needs memory to work in; what becomes of its answer,
/// `stored_blob` says.
pub fn pack_tile(records: &[TileRecord], extent: u16) -> (r: Result<Vec<u8>, CompressError>)
    ensures
        r matches Ok(blob) ==> {
            let tile = tile_bytes(parts_of(records_view(records@)), extent);
            zstd_compresses(tile, ZSTD_LEVEL, blob@) && zstd_decoded(blob@) == Some(tile)
        },
{
    stored_blob(zstd_bulk_compress(&build_tile(records, extent), ZSTD_LEVEL))
}

/// Decoding a stored tile gives back the records it was packed from.
pub proof fn stored_tile_roundtrip(recs: Seq<RecordView>, extent: u16, blob: Seq<u8>)
    requires
        records_fit(recs),
        zstd_decoded(blob) == Some(tile_bytes(parts_of(recs), extent)),
    ensures
        stored_tile(blob) == Ok::<TileContents, DecodeError>(record_contents(recs, extent)),
{
    tile_roundtrip(recs, extent);
}

} // verus!
