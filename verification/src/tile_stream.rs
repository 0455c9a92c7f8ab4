//! The head of a tile stream: the four fields that a container begins with,
//! as a record of its own that is made from a length and asked for what it
//! describes.

use vstd::prelude::*;

use crate::header::{HeaderFields, GDEFLATE_ID};
use crate::DEFAULT_TILE_SIZE;

verus! {

/// The head of a tile stream.
#[derive(Debug, Clone, Copy, PartialEq, Eq)]
pub struct TileStream {
    id: u8,
    magic: u8,
    num_tiles: u16,
    value: u32,
}

impl View for TileStream {
    type V = HeaderFields;

    closed spec fn view(&self) -> HeaderFields {
        HeaderFields {
            id: self.id,
            magic: self.magic,
            num_tiles: self.num_tiles,
            value: self.value,
        }
    }
}

impl TileStream {
    /// Makes the head of a stream of `uncompressed_size` bytes, with the
    /// container's tag.
    pub fn new(uncompressed_size: usize) -> (stream: Self)
        ensures
            stream@ == HeaderFields::encode(uncompressed_size as nat),
    {
        let num_tiles: usize = uncompressed_size / DEFAULT_TILE_SIZE;
        let last_tile_size: usize = uncompressed_size - num_tiles * DEFAULT_TILE_SIZE;
        let last: u32 = last_tile_size as u32;
        assert(1u32 << 30 | last << 12 == 0x4000_0000 + last * 4096) by (bit_vector)
            requires
                last < 65536,
        ;
        assert(GDEFLATE_ID ^ 0xff == 251) by (bit_vector)
            requires
                GDEFLATE_ID == 4,
        ;
        Self {
            id: GDEFLATE_ID,
            magic: GDEFLATE_ID ^ 0xff,
            num_tiles: (num_tiles % 65536) as u16,
            value: 1 << 30 | last << 12,
        }
    }

    /// Whether this is the head of a container's stream: the tag is the
    /// format's and `magic` is its complement.
    pub fn valid(&self) -> (valid: bool)
        ensures
            valid == self@.valid(),
    {
        let magic: u8 = self.magic;
        assert(magic ^ 0xff == 255 - magic) by (bit_vector);
        self.id == (self.magic ^ 0xff) && self.id == GDEFLATE_ID
    }

    /// The size of the last tile as the head records it; 0 stands for a
    /// whole tile.
    pub fn last_tile_size(&self) -> (size: usize)
        ensures
            size == self@.last_tile_size(),
    {
        let value: u32 = self.value;
        assert((value >> 12) & 0x3ffff == (value as nat / 4096) % 262144) by (bit_vector);
        ((self.value >> 12) & 0x3ffff) as usize
    }

    /// The number of uncompressed bytes that the head describes. The head
    /// must describe a length.
    pub fn uncompressed_size(&self) -> (size: usize)
        requires
            self@.has_size(),
        ensures
            size == self@.uncompressed_size(),
    {
        let last_tile_size: usize = self.last_tile_size();
        (self.num_tiles as usize) * DEFAULT_TILE_SIZE - if last_tile_size == 0 {
            0
        } else {
            DEFAULT_TILE_SIZE - last_tile_size
        }
    }
}

} // verus!
