//! The eight bytes at the head of a container.
//!
//! ```text
//! offset 0: u8  id          the format tag
//! offset 1: u8  magic       the bitwise complement of id
//! offset 2: u16 num_tiles   little-endian
//! offset 4: u32 value       little-endian; bit 30 set, bits 12..29 the
//!                           size of the last tile
//! ```

use vstd::prelude::*;

use crate::endian::{
    get_u16_le, get_u32_le, put_u16_le, put_u32_le, spec_u16_le, spec_u16_le_bytes, spec_u32_le,
    spec_u32_le_bytes,
};
use crate::{Error, DEFAULT_TILE_SIZE};

verus! {

/// The format tag of a container.
pub const GDEFLATE_ID: u8 = 4;

/// The number of bytes that a header takes.
pub const HEADER_SIZE: usize = 8;

/// The four fields of a header as plain numbers.
pub struct HeaderFields {
    pub id: u8,
    pub magic: u8,
    pub num_tiles: u16,
    pub value: u32,
}

impl HeaderFields {
    /// The header of `uncompressed_size` bytes: the tag and its complement,
    /// the number of whole tiles as far as sixteen bits hold it, and a value
    /// with the marker bit and the bytes left over behind the whole tiles.
    pub open spec fn encode(uncompressed_size: nat) -> HeaderFields {
        HeaderFields {
            id: GDEFLATE_ID,
            magic: (255 - GDEFLATE_ID) as u8,
            num_tiles: (uncompressed_size / DEFAULT_TILE_SIZE as nat % 65536) as u16,
            value: (0x4000_0000 + (uncompressed_size % DEFAULT_TILE_SIZE as nat) * 4096) as u32,
        }
    }

    /// The header that the first eight bytes of `bytes` hold.
    pub open spec fn decode(bytes: Seq<u8>) -> HeaderFields
        recommends
            bytes.len() >= 8,
    {
        HeaderFields {
            id: bytes[0],
            magic: bytes[1],
            num_tiles: spec_u16_le(bytes.subrange(2, 4)) as u16,
            value: spec_u32_le(bytes.subrange(4, 8)) as u32,
        }
    }

    /// The eight bytes that hold this header.
    pub open spec fn bytes(self) -> Seq<u8> {
        seq![self.id, self.magic] + spec_u16_le_bytes(self.num_tiles) + spec_u32_le_bytes(
            self.value,
        )
    }

    /// Whether the tag is the format's and `magic` is its complement.
    pub open spec fn valid(self) -> bool {
        self.id == 255 - self.magic && self.id == GDEFLATE_ID
    }

    /// The eighteen bits of `value` from bit 12 on.
    pub open spec fn last_tile_size(self) -> nat {
        (self.value as nat / 4096) % 262144
    }

    /// Whether the fields describe a length: a last tile size of 0, or one
    /// that is no more than a tile and that the tiles counted leave room for.
    pub open spec fn has_size(self) -> bool {
        let last = self.last_tile_size();
        last == 0 || (last <= DEFAULT_TILE_SIZE && self.num_tiles * DEFAULT_TILE_SIZE
            >= DEFAULT_TILE_SIZE - last)
    }

    /// The length that the fields describe: `num_tiles` tiles, the last of
    /// them cut down to the last tile size unless that is 0, which stands for
    /// a whole tile.
    pub open spec fn uncompressed_size(self) -> int {
        let last = self.last_tile_size();
        if last == 0 {
            self.num_tiles * DEFAULT_TILE_SIZE
        } else {
            self.num_tiles * DEFAULT_TILE_SIZE - (DEFAULT_TILE_SIZE - last)
        }
    }
}

impl HeaderFields {
    /// These fields with one bit of the `id` and `magic` pair turned over:
    /// bit `bit` of `id` for `bit` below 8, bit `bit - 8` of `magic` from 8 on.
    pub open spec fn flip_bit(self, bit: u8) -> HeaderFields
        recommends
            bit < 16,
    {
        if bit < 8 {
            HeaderFields { id: self.id ^ (1u8 << bit), ..self }
        } else {
            HeaderFields { magic: self.magic ^ (1u8 << ((bit - 8) as u8)), ..self }
        }
    }
}

/// A valid header with any one bit of its `id` and `magic` pair turned over
/// is not valid.
pub proof fn lemma_flipped_bit_is_invalid(fields: HeaderFields, bit: u8)
    requires
        fields.valid(),
        bit < 16,
    ensures
        !fields.flip_bit(bit).valid(),
{
    let id = fields.id;
    let magic = fields.magic;
    if bit < 8 {
        assert(id ^ (1u8 << bit) != id) by (bit_vector)
            requires
                bit < 8,
        ;
    } else {
        let shift = (bit - 8) as u8;
        assert(magic ^ (1u8 << shift) != magic) by (bit_vector)
            requires
                shift < 8,
        ;
    }
}

/// The header made for a length that is a whole number of tiles, no more of
/// them than sixteen bits count, describes that length.
pub proof fn lemma_size_round_trip(uncompressed_size: nat)
    requires
        uncompressed_size % DEFAULT_TILE_SIZE as nat == 0,
        uncompressed_size / DEFAULT_TILE_SIZE as nat <= u16::MAX,
    ensures
        HeaderFields::encode(uncompressed_size).valid(),
        HeaderFields::encode(uncompressed_size).has_size(),
        HeaderFields::encode(uncompressed_size).uncompressed_size() == uncompressed_size,
{
}

/// What the header made for any length records and describes: the whole
/// tiles, counted in sixteen bits, and the bytes left over behind them. It
/// describes a length unless bytes are left over and the count is 0, and
/// that length is the one it was made for only if nothing is left over and
/// the count holds every tile.
pub proof fn lemma_encoded_size(uncompressed_size: nat)
    ensures
        ({
            let fields = HeaderFields::encode(uncompressed_size);
            let whole = uncompressed_size / DEFAULT_TILE_SIZE as nat;
            let rest = uncompressed_size % DEFAULT_TILE_SIZE as nat;
            &&& fields.valid()
            &&& fields.num_tiles == whole % 65536
            &&& fields.last_tile_size() == rest
            &&& fields.has_size() <==> rest == 0 || fields.num_tiles > 0
            &&& fields.has_size() && rest != 0 ==> fields.uncompressed_size() == (fields.num_tiles
                - 1) * DEFAULT_TILE_SIZE + rest
            &&& fields.has_size() && fields.uncompressed_size() == uncompressed_size <==> rest == 0
                && whole <= u16::MAX
        }),
{
}

/// The eight bytes of a header hold that header.
pub proof fn lemma_header_bytes_read_back(fields: HeaderFields)
    ensures
        fields.bytes().len() == HEADER_SIZE,
        HeaderFields::decode(fields.bytes()) == fields,
{
    let bytes = fields.bytes();
    assert(bytes.subrange(2, 4) =~= spec_u16_le_bytes(fields.num_tiles));
    assert(bytes.subrange(4, 8) =~= spec_u32_le_bytes(fields.value));
}

/// The header of a container.
#[derive(Debug, Clone, Copy, PartialEq, Eq)]
pub struct Header {
    id: u8,
    magic: u8,
    num_tiles: u16,
    value: u32,
}

impl View for Header {
    type V = HeaderFields;

    closed spec fn view(&self) -> HeaderFields {
        HeaderFields {
            id: self.id,
            magic: self.magic,
            num_tiles: self.num_tiles,
            value: self.value,
        }
    }
}

impl Header {
    /// Makes the header of `uncompressed_size` bytes.
    pub fn new(uncompressed_size: usize) -> (header: Self)
        ensures
            header@ == HeaderFields::encode(uncompressed_size as nat),
    {
        let num_tiles: usize = uncompressed_size / DEFAULT_TILE_SIZE;
        let last_tile_size: usize = uncompressed_size - num_tiles * DEFAULT_TILE_SIZE;
        let last: u32 = last_tile_size as u32;
        assert(1u32 << 30 | (last & 0x3ffff) << 12 == 0x4000_0000 + last * 4096) by (bit_vector)
            requires
                last < 65536,
        ;
        assert(GDEFLATE_ID ^ 0xff == 251) by (bit_vector)
            requires
                GDEFLATE_ID == 4,
        ;
        Self {
            id: GDEFLATE_ID,
            magic: GDEFLATE_ID ^ 0xff,
            num_tiles: (num_tiles % 65536) as u16,
            value: 1 << 30 | (last & 0x3ffff) << 12,
        }
    }

    /// Reads a header from the first eight bytes of `reader`. Fewer bytes
    /// hold no header.
    pub fn from_reader(reader: &[u8]) -> (header: Result<Self, Error>)
        ensures
            reader@.len() >= HEADER_SIZE ==> header is Ok && header->Ok_0@ == HeaderFields::decode(
                reader@,
            ),
            reader@.len() < HEADER_SIZE ==> header == Err::<Self, Error>(Error::TruncatedHeader),
    {
        if reader.len() < HEADER_SIZE {
            return Err(Error::TruncatedHeader);
        }
        Ok(
            Self {
                id: reader[0],
                magic: reader[1],
                num_tiles: get_u16_le(reader, 2),
                value: get_u32_le(reader, 4),
            },
        )
    }

    /// Appends the eight bytes of this header to `writer`.
    pub fn write(&self, writer: &mut Vec<u8>)
        ensures
            final(writer)@ == old(writer)@ + self@.bytes(),
    {
        writer.push(self.id);
        writer.push(self.magic);
        put_u16_le(writer, self.num_tiles);
        put_u32_le(writer, self.value);
        assert(writer@ =~= old(writer)@ + self@.bytes());
    }

    /// Whether this is the header of a container: the tag is the format's and
    /// `magic` is its complement. Nothing else in a header means anything
    /// unless this holds.
    #[inline]
    pub fn valid(&self) -> (valid: bool)
        ensures
            valid == self@.valid(),
    {
        let magic: u8 = self.magic;
        assert(magic ^ 0xff == 255 - magic) by (bit_vector);
        self.id == self.magic ^ 0xff && self.id == GDEFLATE_ID
    }

    /// The size of the last tile as the header records it; 0 stands for a
    /// whole tile.
    #[inline]
    pub fn last_tile_size(&self) -> (size: usize)
        ensures
            size == self@.last_tile_size(),
    {
        let value: u32 = self.value;
        assert((value >> 12) & 0x3ffff == (value as nat / 4096) % 262144) by (bit_vector);
        ((self.value >> 12) & 0x3ffff) as usize
    }

    /// The number of tiles that the header records.
    #[inline]
    pub fn num_tiles(&self) -> (count: usize)
        ensures
            count == self@.num_tiles,
    {
        self.num_tiles as usize
    }

    /// The number of uncompressed bytes that the header describes. The
    /// header must describe a length, which `checked_uncompressed_size`
    /// finds out.
    pub fn uncompressed_size(&self) -> (size: usize)
        requires
            self@.has_size(),
        ensures
            size == self@.uncompressed_size(),
    {
        let last_tile_size: usize = self.last_tile_size();
        (self.num_tiles as usize) * DEFAULT_TILE_SIZE - if last_tile_size == 0 {
            0
        } else {
            DEFAULT_TILE_SIZE - last_tile_size
        }
    }

    /// The number of uncompressed bytes that the header describes, if it
    /// describes any.
    pub fn checked_uncompressed_size(&self) -> (size: Option<usize>)
        ensures
            self@.has_size() ==> size == Some(self@.uncompressed_size() as usize),
            !self@.has_size() ==> size is None,
    {
        let last_tile_size: usize = self.last_tile_size();
        let whole: usize = (self.num_tiles as usize) * DEFAULT_TILE_SIZE;
        if last_tile_size == 0 || (last_tile_size <= DEFAULT_TILE_SIZE && whole
            >= DEFAULT_TILE_SIZE - last_tile_size) {
            Some(self.uncompressed_size())
        } else {
            None
        }
    }
}

} // verus!
