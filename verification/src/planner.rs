//! Tile arithmetic: how many tiles a length is cut into, and where each tile
//! lies. Everything else in the crate takes tile boundaries from here.

use vstd::prelude::*;

use crate::Error;

verus! {

/// The number of tiles that `total_len` bytes are cut into: the quotient of
/// `total_len` by `tile_size`, rounded up.
pub open spec fn spec_tile_count(total_len: nat, tile_size: nat) -> nat
    recommends
        tile_size > 0,
{
    if total_len % tile_size == 0 {
        total_len / tile_size
    } else {
        total_len / tile_size + 1
    }
}

/// The offset at which tile `index` begins.
pub open spec fn spec_tile_offset(index: nat, tile_size: nat) -> nat {
    index * tile_size
}

/// The length of tile `index`: a whole tile, or what is left of the bytes
/// behind its offset if that is less.
pub open spec fn spec_tile_len(index: nat, total_len: nat, tile_size: nat) -> nat
    recommends
        spec_tile_offset(index, tile_size) < total_len,
{
    let left = total_len - spec_tile_offset(index, tile_size);
    if left <= 0 {
        0
    } else if tile_size <= left {
        tile_size
    } else {
        left as nat
    }
}

/// Whether tile `index` begins before the end of `total_len` bytes.
pub open spec fn spec_tile_in_range(index: nat, total_len: nat, tile_size: nat) -> bool {
    spec_tile_offset(index, tile_size) < total_len
}

/// A tile index lies below the tile count exactly if the tile begins before
/// the end of the bytes; such a tile holds at least one byte, at most
/// `tile_size`, and ends within the bytes.
pub proof fn lemma_tile_in_range(index: nat, total_len: nat, tile_size: nat)
    requires
        tile_size > 0,
    ensures
        index < spec_tile_count(total_len, tile_size) <==> spec_tile_in_range(
            index,
            total_len,
            tile_size,
        ),
        spec_tile_in_range(index, total_len, tile_size) ==> {
            &&& 0 < spec_tile_len(index, total_len, tile_size) <= tile_size
            &&& spec_tile_offset(index, tile_size) + spec_tile_len(index, total_len, tile_size)
                <= total_len
        },
{
    let whole = total_len / tile_size;
    let rest = total_len % tile_size;
    assert(total_len == whole * tile_size + rest && 0 <= rest < tile_size) by (nonlinear_arith)
        requires
            whole == total_len / tile_size,
            rest == total_len % tile_size,
            tile_size > 0,
    ;
    if index < whole {
        assert(index * tile_size + tile_size <= whole * tile_size) by (nonlinear_arith)
            requires
                index < whole,
        ;
    } else if index == whole {
    } else {
        assert(index * tile_size >= whole * tile_size + tile_size) by (nonlinear_arith)
            requires
                index > whole,
        ;
    }
}

/// The tile count is the least number of tiles that hold all the bytes.
pub proof fn lemma_tile_count_is_least(total_len: nat, tile_size: nat)
    requires
        tile_size > 0,
    ensures
        spec_tile_count(total_len, tile_size) * tile_size >= total_len,
        forall|fewer: nat|
            fewer < spec_tile_count(total_len, tile_size) ==> #[trigger] spec_tile_offset(
                fewer,
                tile_size,
            ) < total_len,
{
    lemma_tile_in_range(spec_tile_count(total_len, tile_size), total_len, tile_size);
    assert forall|fewer: nat| fewer < spec_tile_count(total_len, tile_size) implies #[trigger] spec_tile_offset(
        fewer,
        tile_size,
    ) < total_len by {
        lemma_tile_in_range(fewer, total_len, tile_size);
    }
}

/// Every tile but the last is a whole tile and ends where the next begins;
/// the last ends where the bytes end.
pub proof fn lemma_tiles_adjoin(index: nat, total_len: nat, tile_size: nat)
    requires
        tile_size > 0,
        index < spec_tile_count(total_len, tile_size),
    ensures
        index + 1 < spec_tile_count(total_len, tile_size) ==> {
            &&& spec_tile_len(index, total_len, tile_size) == tile_size
            &&& spec_tile_offset(index, tile_size) + tile_size == spec_tile_offset(
                index + 1,
                tile_size,
            )
        },
        index + 1 == spec_tile_count(total_len, tile_size) ==> {
            &&& 0 < spec_tile_len(index, total_len, tile_size) <= tile_size
            &&& spec_tile_offset(index, tile_size) + spec_tile_len(index, total_len, tile_size)
                == total_len
        },
{
    lemma_tile_in_range(index, total_len, tile_size);
    lemma_tile_in_range(index + 1, total_len, tile_size);
    assert((index + 1) * tile_size == index * tile_size + tile_size) by (nonlinear_arith);
}

/// Bytes that fill `whole` tiles and `rest` bytes more, `rest` being at least
/// one byte and at most a tile, are cut into `whole + 1` tiles, the last of
/// `rest` bytes. So a length that is a whole number of tiles ends in a whole
/// tile, and any other in a tile of what is left over.
pub proof fn lemma_last_tile(whole: nat, rest: nat, tile_size: nat)
    requires
        0 < rest <= tile_size,
    ensures
        spec_tile_count(whole * tile_size + rest, tile_size) == whole + 1,
        spec_tile_len(whole, whole * tile_size + rest, tile_size) == rest,
{
    let total_len = whole * tile_size + rest;
    lemma_tile_in_range(whole, total_len, tile_size);
    lemma_tile_in_range(whole + 1, total_len, tile_size);
    assert((whole + 1) * tile_size == whole * tile_size + tile_size) by (nonlinear_arith);
}

/// Five tiles and three bytes, for tiles of at least three bytes, make six
/// tiles, the last of three bytes.
pub proof fn lemma_five_tiles_and_three(tile_size: nat)
    requires
        tile_size >= 3,
    ensures
        spec_tile_count(5 * tile_size + 3, tile_size) == 6,
        spec_tile_len(5, 5 * tile_size + 3, tile_size) == 3,
{
    lemma_last_tile(5, 3, tile_size);
}

/// Computes the number of tiles of `tile_size` bytes needed for `total_len`
/// bytes. No bytes need no tile.
pub fn tile_count(total_len: usize, tile_size: usize) -> (count: usize)
    requires
        tile_size > 0,
    ensures
        count == spec_tile_count(total_len as nat, tile_size as nat),
{
    let whole: usize = total_len / tile_size;
    if total_len % tile_size == 0 {
        whole
    } else {
        assert(whole < total_len) by (nonlinear_arith)
            requires
                whole == total_len / tile_size,
                total_len % tile_size != 0,
                tile_size > 0,
        ;
        whole + 1
    }
}

/// Computes the offset and length of tile `index`. The tile must begin before
/// the end of the bytes; an index at or behind the end is refused.
pub fn tile_bounds(index: usize, total_len: usize, tile_size: usize) -> (bounds: Result<
    (usize, usize),
    Error,
>)
    ensures
        spec_tile_in_range(index as nat, total_len as nat, tile_size as nat) ==> bounds == Ok::<
            (usize, usize),
            Error,
        >(
            (
                spec_tile_offset(index as nat, tile_size as nat) as usize,
                spec_tile_len(index as nat, total_len as nat, tile_size as nat) as usize,
            ),
        ),
        !spec_tile_in_range(index as nat, total_len as nat, tile_size as nat) ==> bounds == Err::<
            (usize, usize),
            Error,
        >(Error::IndexOutOfRange),
{
    match index.checked_mul(tile_size) {
        Some(offset) => {
            if offset >= total_len {
                Err(Error::IndexOutOfRange)
            } else {
                let left: usize = total_len - offset;
                if tile_size <= left {
                    Ok((offset, tile_size))
                } else {
                    Ok((offset, left))
                }
            }
        },
        None => Err(Error::IndexOutOfRange),
    }
}

} // verus!
