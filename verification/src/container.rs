//! The byte layout of a container: the header, behind it the size table with
//! one little-endian `u32` per tile, behind that the compressed tiles.

use vstd::prelude::*;

use crate::decompressor::spec_output_len;
use crate::endian::{
    get_u32_le, lemma_u32_le_read_back, put_u32_le, spec_u32_le, spec_u32_le_bytes,
};
use crate::header::{lemma_header_bytes_read_back, Header, HeaderFields, HEADER_SIZE};
use crate::planner::{
    lemma_tile_in_range, lemma_tiles_adjoin, spec_tile_count, spec_tile_len, spec_tile_offset,
    tile_bounds,
};
use crate::{
    CompressionResult, CompressionView, Error, OwnedCompressionResult, Tile, DEFAULT_TILE_SIZE,
};

verus! {

/// The size table of `tiles`: the compressed size of each, in four bytes, low
/// byte first.
pub open spec fn spec_size_table(tiles: Seq<Tile>) -> Seq<u8> {
    Seq::new(4 * tiles.len(), |k: int| spec_u32_le_bytes(tiles[k / 4].compressed_size)[k % 4])
}

/// Entry `index` of the size table that stands behind the header of `stream`.
pub open spec fn spec_table_entry(stream: Seq<u8>, index: int) -> u32
    recommends
        0 <= index,
        HEADER_SIZE + 4 * index + 4 <= stream.len(),
{
    spec_u32_le(stream.subrange(HEADER_SIZE + 4 * index, HEADER_SIZE + 4 * index + 4)) as u32
}

impl CompressionView {
    /// The number of bytes that all tiles together stand for.
    pub open spec fn uncompressed_len(self) -> nat {
        spec_output_len(self.tiles, self.tiles.len())
    }

    /// The container of this compression: the header of its uncompressed
    /// length, its size table, its compressed tiles.
    pub open spec fn stream(self) -> Seq<u8> {
        HeaderFields::encode(self.uncompressed_len()).bytes() + spec_size_table(self.tiles)
            + self.bytes
    }
}

/// What a stream holds, read as a container. A stream of fewer than eight
/// bytes has no header. A header must be valid and describe a length. Behind
/// it the stream must hold one table entry for each tile that the header
/// counts. Every tile is a whole tile but the last, which is what the
/// header's length leaves for it; what stands behind the table is the
/// compressed tiles.
pub open spec fn spec_parse(stream: Seq<u8>) -> Result<CompressionView, Error> {
    let header = HeaderFields::decode(stream);
    if stream.len() < HEADER_SIZE {
        Err(Error::TruncatedHeader)
    } else if !header.valid() || !header.has_size() {
        Err(Error::InvalidHeader)
    } else if stream.len() < HEADER_SIZE + 4 * header.num_tiles {
        Err(Error::TruncatedSizeTable)
    } else {
        Ok(
            CompressionView {
                bytes: stream.subrange(HEADER_SIZE + 4 * header.num_tiles, stream.len() as int),
                tiles: Seq::new(
                    header.num_tiles as nat,
                    |i: int|
                        Tile {
                            compressed_size: spec_table_entry(stream, i),
                            uncompressed_size: spec_tile_len(
                                i as nat,
                                header.uncompressed_size() as nat,
                                DEFAULT_TILE_SIZE as nat,
                            ) as u32,
                        },
                ),
                tile_size: DEFAULT_TILE_SIZE as u32,
            },
        )
    }
}

impl<'a> CompressionResult<'a> {
    /// Lays this compression out as a container: the header of the length
    /// that its tiles stand for, one table entry for each tile, its
    /// compressed bytes. The container records no tile size: whoever reads it
    /// takes every tile but the last for `DEFAULT_TILE_SIZE` bytes.
    pub fn to_stream(&self) -> (stream: Vec<u8>)
        ensures
            stream@ == self@.stream(),
    {
        let mut sum: u32 = 0;
        let mut i: usize = 0;
        while i < self.tiles.len()
            invariant
                i <= self.tiles@.len(),
                sum == spec_output_len(self.tiles@, i as nat) % 0x1_0000_0000,
            decreases self.tiles@.len() - i,
        {
            sum = sum.wrapping_add(self.tiles[i].uncompressed_size);
            i = i + 1;
        }
        let header = Header::new(sum as usize);
        assert(header@ == HeaderFields::encode(self@.uncompressed_len())) by {
            lemma_encode_wraps(self@.uncompressed_len());
        }
        let mut stream: Vec<u8> = Vec::new();
        header.write(&mut stream);
        let ghost head = stream@;
        let mut i: usize = 0;
        while i < self.tiles.len()
            invariant
                i <= self.tiles@.len(),
                stream@ == head + spec_size_table(self.tiles@.take(i as int)),
            decreases self.tiles@.len() - i,
        {
            put_u32_le(&mut stream, self.tiles[i].compressed_size);
            assert(stream@ =~= head + spec_size_table(self.tiles@.take(i + 1)));
            i = i + 1;
        }
        assert(self.tiles@.take(self.tiles@.len() as int) =~= self.tiles@);
        stream.extend_from_slice(self.bytes);
        assert(stream@ =~= self@.stream());
        stream
    }
}

impl OwnedCompressionResult {
    /// Reads a container: its header, then one table entry for each tile
    /// that the header counts, and takes what stands behind them as the
    /// compressed tiles. Whether those are as many bytes as the table
    /// records is found when they are decompressed.
    pub fn from_stream(stream: &[u8]) -> (result: Result<Self, Error>)
        ensures
            match spec_parse(stream@) {
                Ok(view) => result is Ok && result->Ok_0@ == view,
                Err(e) => result == Err::<Self, Error>(e),
            },
    {
        let header = match Header::from_reader(stream) {
            Ok(header) => header,
            Err(e) => { return Err(e); },
        };
        if !header.valid() {
            return Err(Error::InvalidHeader);
        }
        let total: usize = match header.checked_uncompressed_size() {
            Some(total) => total,
            None => { return Err(Error::InvalidHeader); },
        };
        let count: usize = header.num_tiles();
        let table_end: usize = HEADER_SIZE + 4 * count;
        if stream.len() < table_end {
            return Err(Error::TruncatedSizeTable);
        }
        let ghost view = spec_parse(stream@)->Ok_0;
        let mut tiles: Vec<Tile> = Vec::new();
        let mut i: usize = 0;
        while i < count
            invariant
                i <= count,
                count == header@.num_tiles,
                total == header@.uncompressed_size(),
                header@.has_size(),
                header@ == HeaderFields::decode(stream@),
                HEADER_SIZE + 4 * count <= stream@.len(),
                view == spec_parse(stream@)->Ok_0,
                spec_parse(stream@) is Ok,
                tiles@ == view.tiles.take(i as int),
            decreases count - i,
        {
            let compressed_size: u32 = get_u32_le(stream, HEADER_SIZE + 4 * i);
            proof {
                lemma_counted_tiles_in_range(header@, i as nat);
            }
            let length: usize = match tile_bounds(i, total, DEFAULT_TILE_SIZE) {
                Ok((_, length)) => length,
                Err(e) => { return Err(e); },
            };
            tiles.push(Tile { compressed_size, uncompressed_size: length as u32 });
            assert(tiles@ =~= view.tiles.take(i + 1));
            i = i + 1;
        }
        assert(view.tiles.take(count as int) =~= view.tiles);
        let mut bytes: Vec<u8> = Vec::new();
        bytes.extend_from_slice(&stream[table_end..stream.len()]);
        assert(bytes@ =~= view.bytes);
        Ok(OwnedCompressionResult { bytes, tiles, tile_size: DEFAULT_TILE_SIZE as u32 })
    }
}

/// A container of whole tiles, no more of them than a header counts, reads
/// back as the compression it was laid out from.
pub proof fn lemma_stream_read_back(view: CompressionView)
    requires
        view.tile_size == DEFAULT_TILE_SIZE,
        view.tiles.len() <= u16::MAX,
        forall|i: int|
            0 <= i < view.tiles.len() ==> (#[trigger] view.tiles[i]).uncompressed_size
                == DEFAULT_TILE_SIZE,
    ensures
        spec_parse(view.stream()) == Ok::<CompressionView, Error>(view),
{
    let count = view.tiles.len();
    let stream = view.stream();
    let header = HeaderFields::encode(view.uncompressed_len());
    lemma_whole_tiles_len(view.tiles, count);
    assert(view.uncompressed_len() == count * DEFAULT_TILE_SIZE);
    lemma_header_bytes_read_back(header);
    assert(stream.subrange(2, 4) =~= header.bytes().subrange(2, 4));
    assert(stream.subrange(4, 8) =~= header.bytes().subrange(4, 8));
    assert(HeaderFields::decode(stream) == header);
    assert(header.num_tiles == count);
    assert(header.last_tile_size() == 0);
    let parsed = spec_parse(stream)->Ok_0;
    assert(parsed.bytes =~= view.bytes);
    assert forall|i: int| 0 <= i < count implies #[trigger] parsed.tiles[i] == view.tiles[i] by {
        assert(stream.subrange(HEADER_SIZE + 4 * i, HEADER_SIZE + 4 * i + 4) =~= spec_u32_le_bytes(
            view.tiles[i].compressed_size,
        ));
        lemma_u32_le_read_back(view.tiles[i].compressed_size);
        lemma_tile_in_range(
            i as nat,
            header.uncompressed_size() as nat,
            DEFAULT_TILE_SIZE as nat,
        );
    }
    assert(parsed.tiles =~= view.tiles);
}

/// The tiles read from a container stand for as many bytes as its header
/// describes: every decompression of them gives that many bytes or none.
pub proof fn lemma_parsed_len(stream: Seq<u8>)
    requires
        spec_parse(stream) is Ok,
    ensures
        spec_parse(stream)->Ok_0.tiles.len() == HeaderFields::decode(stream).num_tiles,
        spec_parse(stream)->Ok_0.uncompressed_len() == HeaderFields::decode(
            stream,
        ).uncompressed_size(),
{
    let header = HeaderFields::decode(stream);
    let view = spec_parse(stream)->Ok_0;
    let total = header.uncompressed_size() as nat;
    let tile_size = DEFAULT_TILE_SIZE as nat;
    if view.tiles.len() > 0 {
        lemma_counted_tiles_in_range(header, (view.tiles.len() - 1) as nat);
        assert(spec_tile_count(total, tile_size) == view.tiles.len()) by {
            lemma_tile_in_range((view.tiles.len() - 1) as nat, total, tile_size);
            lemma_tile_in_range(view.tiles.len(), total, tile_size);
        }
    }
    lemma_parsed_len_upto(stream, view.tiles.len());
    if view.tiles.len() > 0 {
        lemma_tiles_adjoin((view.tiles.len() - 1) as nat, total, tile_size);
    }
}

/// The first `k` tiles read from a container stand for the bytes up to the
/// end of tile `k - 1`.
proof fn lemma_parsed_len_upto(stream: Seq<u8>, k: nat)
    requires
        spec_parse(stream) is Ok,
        k <= spec_parse(stream)->Ok_0.tiles.len(),
    ensures
        k == 0 ==> spec_output_len(spec_parse(stream)->Ok_0.tiles, k) == 0,
        k > 0 ==> spec_output_len(spec_parse(stream)->Ok_0.tiles, k) == spec_tile_offset(
            (k - 1) as nat,
            DEFAULT_TILE_SIZE as nat,
        ) + spec_tile_len(
            (k - 1) as nat,
            HeaderFields::decode(stream).uncompressed_size() as nat,
            DEFAULT_TILE_SIZE as nat,
        ),
    decreases k,
{
    if k > 0 {
        let header = HeaderFields::decode(stream);
        let total = header.uncompressed_size() as nat;
        let tile_size = DEFAULT_TILE_SIZE as nat;
        lemma_parsed_len_upto(stream, (k - 1) as nat);
        lemma_counted_tiles_in_range(header, (k - 1) as nat);
        if k > 1 {
            lemma_counted_tiles_in_range(header, (k - 2) as nat);
            lemma_tile_in_range((k - 1) as nat, total, tile_size);
            lemma_tile_in_range(k, total, tile_size);
            lemma_tile_in_range((k - 2) as nat, total, tile_size);
            assert(spec_tile_len((k - 2) as nat, total, tile_size) == tile_size);
        }
    }
}

/// Whole tiles stand for as many bytes as their number times the tile size.
proof fn lemma_whole_tiles_len(tiles: Seq<Tile>, k: nat)
    requires
        k <= tiles.len(),
        forall|i: int|
            0 <= i < tiles.len() ==> (#[trigger] tiles[i]).uncompressed_size == DEFAULT_TILE_SIZE,
    ensures
        spec_output_len(tiles, k) == k * DEFAULT_TILE_SIZE,
    decreases k,
{
    if k > 0 {
        lemma_whole_tiles_len(tiles, (k - 1) as nat);
    }
}

/// The header of a length is the header of that length taken in 32 bits.
proof fn lemma_encode_wraps(uncompressed_size: nat)
    ensures
        HeaderFields::encode(uncompressed_size % 0x1_0000_0000) == HeaderFields::encode(
            uncompressed_size,
        ),
{
}

/// A header that describes a length counts exactly the tiles of that length.
pub proof fn lemma_counted_tiles_in_range(header: HeaderFields, index: nat)
    requires
        header.has_size(),
        index < header.num_tiles,
    ensures
        header.uncompressed_size() >= 0,
        index * DEFAULT_TILE_SIZE < header.uncompressed_size(),
        0 < spec_tile_len(index, header.uncompressed_size() as nat, DEFAULT_TILE_SIZE as nat)
            <= DEFAULT_TILE_SIZE,
{
    lemma_tile_in_range(index, header.uncompressed_size() as nat, DEFAULT_TILE_SIZE as nat);
}

} // verus!
