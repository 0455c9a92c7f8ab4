//! A tiled compression container.
//!
//! A byte stream is cut into tiles of a fixed size, each tile is compressed on
//! its own by a block codec, and the compressed tiles are laid out behind a
//! small header and a table of their sizes. This crate holds the framing and
//! tiling layer: the header, the tile arithmetic, the bookkeeping of a
//! compression and of a decompression, and the byte layout of the container.
//! The block codec itself is not part of it: the bookkeeping says which bytes
//! to hand to the codec next and takes back what the codec produced.

use vstd::prelude::*;

pub mod compressor;
pub mod container;
pub mod decompressor;
pub mod endian;
pub mod header;
pub mod planner;
pub mod round_trip;
pub mod tile_stream;

verus! {

/// Number of uncompressed bytes in every tile of a container but possibly the
/// last.
pub const DEFAULT_TILE_SIZE: usize = 65536;

/// Every way in which an operation of this crate can fail.
#[derive(Debug, Clone, Copy, PartialEq, Eq, Structural)]
pub enum Error {
    /// The block codec could not allocate a compressor.
    CompressorCreationFailed,
    /// The block codec could not allocate a decompressor.
    DecompressorCreationFailed,
    /// Fewer than eight bytes were available where a header was expected.
    TruncatedHeader,
    /// The header does not carry the format tag and its complement, or its
    /// size fields describe no length.
    InvalidHeader,
    /// The stream ends before the size table that its header announces.
    TruncatedSizeTable,
    /// A tile's compressed bytes would reach past the end of the payload.
    TruncatedPayload,
    /// Bytes are left over behind the last tile's compressed bytes.
    TrailingData,
    /// A tile index lies at or behind the end of the uncompressed bytes.
    IndexOutOfRange,
    /// The codec produced more bytes for one tile than its own bound, or more
    /// than a size table entry can record.
    BoundExceeded,
    /// The codec produced a number of bytes for a tile other than the number
    /// recorded for it.
    CorruptTile,
    /// The codec found the compressed bytes of a tile malformed.
    BadData,
    /// The codec ran out of compressed bytes before the tile was complete.
    ShortOutput,
    /// The codec needed more room for a tile than it was given.
    InsufficientSpace,
}

impl Error {
    /// The words for this error.
    pub open spec fn spec_message(self) -> Seq<char> {
        match self {
            Error::CompressorCreationFailed => "Failed to create compressor"@,
            Error::DecompressorCreationFailed => "Failed to create decompressor"@,
            Error::TruncatedHeader => "Fewer than eight bytes where a header was expected"@,
            Error::InvalidHeader => "Not the header of a container"@,
            Error::TruncatedSizeTable => "The stream ends within its size table"@,
            Error::TruncatedPayload => "A tile reaches past the end of the compressed bytes"@,
            Error::TrailingData => "Compressed bytes are left over behind the last tile"@,
            Error::IndexOutOfRange => "The tile lies behind the end of the bytes"@,
            Error::BoundExceeded => "A compressed tile is larger than its bound"@,
            Error::CorruptTile => "A tile decompressed to another size than recorded"@,
            Error::BadData => "The compressed bytes of a tile are malformed"@,
            Error::ShortOutput => "The compressed bytes of a tile end too early"@,
            Error::InsufficientSpace => "The room for a decompressed tile is too small"@,
        }
    }

    /// Says in words what went wrong.
    pub fn message(&self) -> (text: String)
        ensures
            text@ == self.spec_message(),
    {
        match self {
            Error::CompressorCreationFailed => "Failed to create compressor".to_owned(),
            Error::DecompressorCreationFailed => "Failed to create decompressor".to_owned(),
            Error::TruncatedHeader => "Fewer than eight bytes where a header was expected".to_owned(),
            Error::InvalidHeader => "Not the header of a container".to_owned(),
            Error::TruncatedSizeTable => "The stream ends within its size table".to_owned(),
            Error::TruncatedPayload => "A tile reaches past the end of the compressed bytes".to_owned(),
            Error::TrailingData => "Compressed bytes are left over behind the last tile".to_owned(),
            Error::IndexOutOfRange => "The tile lies behind the end of the bytes".to_owned(),
            Error::BoundExceeded => "A compressed tile is larger than its bound".to_owned(),
            Error::CorruptTile => "A tile decompressed to another size than recorded".to_owned(),
            Error::BadData => "The compressed bytes of a tile are malformed".to_owned(),
            Error::ShortOutput => "The compressed bytes of a tile end too early".to_owned(),
            Error::InsufficientSpace => "The room for a decompressed tile is too small".to_owned(),
        }
    }
}

/// How hard the block codec tries, passed through to it as a number.
#[derive(Debug, Clone, Copy, PartialEq, Eq, Structural)]
pub enum CompressionLevel {
    Level0,
    Level1,
    Level2,
    Level3,
    Level4,
    Level5,
    Level6,
    Level7,
    Level8,
    Level9,
    Level10,
    Level11,
    Level12,
}

impl CompressionLevel {
    /// The number that stands for this level: each level's own, `Level0`
    /// being no compression at all.
    pub open spec fn spec_value(self) -> int {
        match self {
            CompressionLevel::Level0 => 0,
            CompressionLevel::Level1 => 1,
            CompressionLevel::Level2 => 2,
            CompressionLevel::Level3 => 3,
            CompressionLevel::Level4 => 4,
            CompressionLevel::Level5 => 5,
            CompressionLevel::Level6 => 6,
            CompressionLevel::Level7 => 7,
            CompressionLevel::Level8 => 8,
            CompressionLevel::Level9 => 9,
            CompressionLevel::Level10 => 10,
            CompressionLevel::Level11 => 11,
            CompressionLevel::Level12 => 12,
        }
    }

    /// The number handed to the block codec for this level.
    pub fn value(self) -> (n: i32)
        ensures
            n == self.spec_value(),
            0 <= n <= 12,
    {
        match self {
            CompressionLevel::Level0 => 0,
            CompressionLevel::Level1 => 1,
            CompressionLevel::Level2 => 2,
            CompressionLevel::Level3 => 3,
            CompressionLevel::Level4 => 4,
            CompressionLevel::Level5 => 5,
            CompressionLevel::Level6 => 6,
            CompressionLevel::Level7 => 7,
            CompressionLevel::Level8 => 8,
            CompressionLevel::Level9 => 9,
            CompressionLevel::Level10 => 10,
            CompressionLevel::Level11 => 11,
            CompressionLevel::Level12 => 12,
        }
    }
}

/// What the block codec reports of one decompression.
#[derive(Debug, Clone, Copy, PartialEq, Eq, Structural)]
pub enum EngineStatus {
    /// The tile was decompressed.
    Success,
    /// The compressed bytes are malformed.
    BadData,
    /// The compressed bytes ended before the tile was complete.
    ShortOutput,
    /// The room given for the tile was too small.
    InsufficientSpace,
}

/// The sizes of one tile: of its compressed bytes in the payload, and of the
/// bytes it stands for.
#[derive(Debug, Clone, Copy, PartialEq, Eq, Structural)]
pub struct Tile {
    pub compressed_size: u32,
    pub uncompressed_size: u32,
}

/// What a finished compression holds, as plain values.
pub struct CompressionView {
    /// The compressed tiles, one behind the other.
    pub bytes: Seq<u8>,
    /// The sizes of each tile, in order.
    pub tiles: Seq<Tile>,
    /// The tile size that the input was cut with.
    pub tile_size: u32,
}

/// A finished compression, owning its bytes: the compressed tiles one behind
/// the other, the sizes of each, and the tile size they were cut with.
#[derive(Debug, Clone, PartialEq, Eq)]
pub struct OwnedCompressionResult {
    pub bytes: Vec<u8>,
    pub tiles: Vec<Tile>,
    pub tile_size: u32,
}

/// A finished compression whose bytes and sizes are borrowed.
#[derive(Debug, Clone, Copy)]
pub struct CompressionResult<'a> {
    pub bytes: &'a [u8],
    pub tiles: &'a [Tile],
    pub tile_size: u32,
}

impl View for OwnedCompressionResult {
    type V = CompressionView;

    open spec fn view(&self) -> CompressionView {
        CompressionView { bytes: self.bytes@, tiles: self.tiles@, tile_size: self.tile_size }
    }
}

impl<'a> View for CompressionResult<'a> {
    type V = CompressionView;

    open spec fn view(&self) -> CompressionView {
        CompressionView { bytes: self.bytes@, tiles: self.tiles@, tile_size: self.tile_size }
    }
}

impl<'a> CompressionResult<'a> {
    /// Puts the three parts of a compression together.
    #[inline]
    pub fn new(bytes: &'a [u8], tiles: &'a [Tile], tile_size: u32) -> (result: Self)
        ensures
            result@ == (CompressionView { bytes: bytes@, tiles: tiles@, tile_size }),
    {
        Self { bytes, tiles, tile_size }
    }
}

impl<'a> From<&'a OwnedCompressionResult> for CompressionResult<'a> {
    /// Borrows the three parts of an owned compression.
    fn from(result: &'a OwnedCompressionResult) -> (borrowed: Self)
        ensures
            borrowed@ == result@,
    {
        Self {
            bytes: result.bytes.as_slice(),
            tiles: result.tiles.as_slice(),
            tile_size: result.tile_size,
        }
    }
}

/// A borrowed compression is known by what it holds, not by where it lies:
/// `from` is described by its own `ensures`, and by no one value.
impl<'a> vstd::std_specs::convert::FromSpecImpl<&'a OwnedCompressionResult> for CompressionResult<'a> {
    open spec fn obeys_from_spec() -> bool {
        false
    }

    open spec fn from_spec(result: &'a OwnedCompressionResult) -> Self {
        choose|borrowed: CompressionResult<'a>| borrowed@ == result@
    }
}

} // verus!
