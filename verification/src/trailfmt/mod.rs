//! Binary trail archive: one file per tile of the Web Mercator pyramid, and an
//! index that lists the tiles a region holds.
use vstd::prelude::*;

pub mod index;
pub mod kind;
pub mod tile;
pub mod tile_laws;
pub mod varint;
pub mod vocabulary;

pub use index::{read_index, tile_path, write_index, Index, TileId, INDEX_MAGIC, TILE_ZOOM};
pub use tile::{decode_tile, encode_tile, ArchiveWay, TILE_MAGIC, VERSION};
pub use varint::{put_ivarint, put_uvarint, unzigzag, zigzag, Reader};
pub use vocabulary::{kind_from_highway, sac_from_tag, sac_label};

use crate::text;
use crate::text::put_decimal;

verus! {

/// Why a file is not an archive this library reads.
#[derive(Debug, PartialEq, Eq, Structural)]
pub enum FormatError {
    /// The file does not start with the expected magic.
    BadMagic,
    /// The file was written by a version this library does not know.
    BadVersion(u8),
    /// The data ends before the record does.
    Truncated,
    /// A way whose point and identity arrays disagree: refused rather than
    /// guessed at.
    Misaligned,
}

/// Name of the index inside a region's directory.
pub const INDEX_FILE: &'static str = "index.tfi";

impl FormatError {
    /// What a person is told.
    pub open spec fn text(self) -> Seq<char> {
        match self {
            FormatError::BadMagic => "not a TrackFinder trail archive"@,
            FormatError::BadVersion(v) => "unsupported archive version "@ + text::decimal(v as nat),
            FormatError::Truncated => "archive data ends mid-record"@,
            FormatError::Misaligned => "way point and identity arrays disagree"@,
        }
    }

    /// What a person is told.
    pub fn message(&self) -> (s: String)
        ensures
            s@ == self.text(),
    {
        match self {
            FormatError::BadMagic => "not a TrackFinder trail archive".to_owned(),
            FormatError::BadVersion(v) => {
                let mut s = "unsupported archive version ".to_owned();
                put_decimal(&mut s, *v as u64);
                s
            },
            FormatError::Truncated => "archive data ends mid-record".to_owned(),
            FormatError::Misaligned => "way point and identity arrays disagree".to_owned(),
        }
    }
}

} // verus!
