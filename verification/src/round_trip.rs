//! A compression and a decompression, run from the first tile to the last
//! against a codec given as two functions, and the laws that tie them: what
//! a compression records of its input, that it is fixed by what the codec
//! makes of the tiles of that input alone, and that what was compressed tile
//! by tile decompresses to the bytes one began with.

use vstd::prelude::*;
use vstd::seq_lib::lemma_flatten_concat;

use crate::compressor::CompressState;
use crate::container::{lemma_stream_read_back, spec_parse};
use crate::decompressor::{spec_output_len, spec_payload_offset, DecompressState};
use crate::planner::{
    lemma_last_tile, lemma_tile_in_range, lemma_tiles_adjoin, spec_tile_count, spec_tile_len,
    spec_tile_offset,
};
use crate::{CompressionView, EngineStatus, Error, DEFAULT_TILE_SIZE};

verus! {

/// The bytes of tile `index` of `input`.
pub open spec fn spec_tile_bytes(input: Seq<u8>, tile_size: nat, index: nat) -> Seq<u8> {
    input.subrange(
        spec_tile_offset(index, tile_size) as int,
        (spec_tile_offset(index, tile_size) + spec_tile_len(index, input.len(), tile_size)) as int,
    )
}

/// The tiles of `input`, in order.
pub open spec fn spec_tiles_of(input: Seq<u8>, tile_size: nat) -> Seq<Seq<u8>> {
    Seq::new(
        spec_tile_count(input.len(), tile_size),
        |i: int| spec_tile_bytes(input, tile_size, i as nat),
    )
}

/// A compression run from `state` to its end: while a tile is missing, the
/// codec's payload for that tile is taken in.
pub open spec fn spec_compress_from(
    state: CompressState,
    input: Seq<u8>,
    codec: spec_fn(Seq<u8>) -> Seq<u8>,
) -> Result<CompressionView, Error>
    decreases state.tile_count() - state.payloads.len(),
{
    if state.is_done() {
        Ok(state.result())
    } else {
        match state.accept(
            codec(spec_tile_bytes(input, state.tile_size, state.payloads.len())),
        ) {
            Ok(next) => spec_compress_from(next, input, codec),
            Err(e) => Err(e),
        }
    }
}

/// The compression of `input` in tiles of `tile_size` bytes by `codec`, whose
/// payloads are held to `bound`.
pub open spec fn spec_compress(
    input: Seq<u8>,
    tile_size: nat,
    bound: nat,
    codec: spec_fn(Seq<u8>) -> Seq<u8>,
) -> Result<CompressionView, Error> {
    spec_compress_from(CompressState::initial(input.len(), tile_size, bound), input, codec)
}

/// A decompression run from `state` to its end: while nothing stands in the
/// way and a tile is missing, the decoder's answer for that tile's payload
/// is taken in.
pub open spec fn spec_decompress_from(
    state: DecompressState,
    bytes: Seq<u8>,
    decoder: spec_fn(Seq<u8>, nat) -> (EngineStatus, Seq<u8>),
) -> Result<Seq<u8>, Error>
    decreases state.tiles.len() - state.outputs.len(),
{
    match state.obstacle() {
        Some(e) => Err(e),
        None => if state.is_done() {
            Ok(state.output())
        } else {
            let tile = state.next_tile();
            let payload = bytes.subrange(
                state.next_offset() as int,
                state.next_offset() + tile.compressed_size,
            );
            let answer = decoder(payload, tile.uncompressed_size as nat);
            match state.accept(answer.0, answer.1) {
                Ok(next) => spec_decompress_from(next, bytes, decoder),
                Err(e) => Err(e),
            }
        },
    }
}

/// The decompression of `result` by `decoder`.
pub open spec fn spec_decompress(
    result: CompressionView,
    decoder: spec_fn(Seq<u8>, nat) -> (EngineStatus, Seq<u8>),
) -> Result<Seq<u8>, Error> {
    spec_decompress_from(
        DecompressState::initial(result.tiles, result.bytes.len()),
        result.bytes,
        decoder,
    )
}

/// Whether `codec` keeps every tile's payload within `bound` and within what
/// a size table entry records.
pub open spec fn spec_codec_bounded(
    codec: spec_fn(Seq<u8>) -> Seq<u8>,
    tile_size: nat,
    bound: nat,
) -> bool {
    forall|tile: Seq<u8>|
        0 < tile.len() <= tile_size ==> (#[trigger] codec(tile)).len() <= bound && codec(
            tile,
        ).len() <= u32::MAX
}

/// Whether `decoder` gives back every tile from the payload that `codec`
/// made of it.
pub open spec fn spec_codec_inverts(
    codec: spec_fn(Seq<u8>) -> Seq<u8>,
    decoder: spec_fn(Seq<u8>, nat) -> (EngineStatus, Seq<u8>),
    tile_size: nat,
) -> bool {
    forall|tile: Seq<u8>|
        0 < tile.len() <= tile_size ==> decoder(#[trigger] codec(tile), tile.len()) == (
            EngineStatus::Success,
            tile,
        )
}

/// The payloads that `codec` makes of the tiles of `input`.
pub open spec fn spec_payloads_of(
    input: Seq<u8>,
    tile_size: nat,
    codec: spec_fn(Seq<u8>) -> Seq<u8>,
) -> Seq<Seq<u8>> {
    Seq::new(
        spec_tile_count(input.len(), tile_size),
        |i: int| codec(spec_tile_bytes(input, tile_size, i as nat)),
    )
}

/// The most bytes that a payload may have under `bound`.
pub open spec fn spec_limit(bound: nat) -> nat {
    CompressState::initial(0, 1, bound).limit()
}

/// Whether every payload from entry `k` on is within `limit`.
pub open spec fn spec_fit_from(payloads: Seq<Seq<u8>>, limit: nat, k: nat) -> bool {
    forall|i: int| k <= i < payloads.len() ==> (#[trigger] payloads[i]).len() <= limit
}

/// Whether every payload that `codec` makes of the tiles of `input` is
/// within the limit that `bound` sets.
pub open spec fn spec_payloads_fit(
    input: Seq<u8>,
    tile_size: nat,
    bound: nat,
    codec: spec_fn(Seq<u8>) -> Seq<u8>,
) -> bool {
    spec_fit_from(spec_payloads_of(input, tile_size, codec), spec_limit(bound), 0)
}

/// The compression that holds the payload of every tile of `input`, in
/// order, with the sizes of each.
pub open spec fn spec_compressed(
    input: Seq<u8>,
    tile_size: nat,
    bound: nat,
    codec: spec_fn(Seq<u8>) -> Seq<u8>,
) -> CompressionView {
    (CompressState {
        total_len: input.len(),
        tile_size,
        bound,
        payloads: spec_payloads_of(input, tile_size, codec),
    }).result()
}

/// What a compression comes to, whatever the codec: it succeeds exactly if
/// every payload that the codec makes of a tile of the input is within the
/// limit, and then holds those payloads; if one is not, the bound was
/// exceeded.
pub proof fn lemma_compress_outcome(
    input: Seq<u8>,
    tile_size: nat,
    bound: nat,
    codec: spec_fn(Seq<u8>) -> Seq<u8>,
)
    requires
        tile_size > 0,
    ensures
        spec_payloads_fit(input, tile_size, bound, codec) ==> spec_compress(
            input,
            tile_size,
            bound,
            codec,
        ) == Ok::<CompressionView, Error>(spec_compressed(input, tile_size, bound, codec)),
        !spec_payloads_fit(input, tile_size, bound, codec) ==> spec_compress(
            input,
            tile_size,
            bound,
            codec,
        ) == Err::<CompressionView, Error>(Error::BoundExceeded),
{
    let start = CompressState::initial(input.len(), tile_size, bound);
    assert(start.payloads =~= spec_payloads_of(input, tile_size, codec).take(0));
    lemma_compress_from(start, input, codec, 0);
}

/// With a codec that keeps to its bound, a compression succeeds, and its
/// result holds the payload of every tile of the input, in order, with the
/// sizes of each.
pub proof fn lemma_compress_result(
    input: Seq<u8>,
    tile_size: nat,
    bound: nat,
    codec: spec_fn(Seq<u8>) -> Seq<u8>,
)
    requires
        tile_size > 0,
        spec_codec_bounded(codec, tile_size, bound),
    ensures
        spec_payloads_fit(input, tile_size, bound, codec),
        spec_compress(input, tile_size, bound, codec) == Ok::<CompressionView, Error>(
            spec_compressed(input, tile_size, bound, codec),
        ),
{
    let payloads = spec_payloads_of(input, tile_size, codec);
    assert forall|i: int| 0 <= i < payloads.len() implies (#[trigger] payloads[i]).len()
        <= spec_limit(bound) by {
        lemma_tile_in_range(i as nat, input.len(), tile_size);
        let tile = spec_tile_bytes(input, tile_size, i as nat);
        assert(tile.len() == spec_tile_len(i as nat, input.len(), tile_size));
        assert(codec(tile).len() <= bound);
    }
    lemma_compress_outcome(input, tile_size, bound, codec);
}

/// A compression that has taken in the payloads of the first `k` tiles runs
/// on to the result that holds the payload of every tile if the payloads
/// still to come are within the limit, and to the exceeded bound if one is
/// not.
proof fn lemma_compress_from(
    state: CompressState,
    input: Seq<u8>,
    codec: spec_fn(Seq<u8>) -> Seq<u8>,
    k: nat,
)
    requires
        state.tile_size > 0,
        state.total_len == input.len(),
        k <= state.tile_count(),
        state.payloads == spec_payloads_of(input, state.tile_size, codec).take(k as int),
    ensures
        spec_fit_from(
            spec_payloads_of(input, state.tile_size, codec),
            spec_limit(state.bound),
            k,
        ) ==> spec_compress_from(state, input, codec) == Ok::<CompressionView, Error>(
            spec_compressed(input, state.tile_size, state.bound, codec),
        ),
        !spec_fit_from(
            spec_payloads_of(input, state.tile_size, codec),
            spec_limit(state.bound),
            k,
        ) ==> spec_compress_from(state, input, codec) == Err::<CompressionView, Error>(
            Error::BoundExceeded,
        ),
    decreases state.tile_count() - k,
{
    let all = spec_payloads_of(input, state.tile_size, codec);
    let limit = spec_limit(state.bound);
    if k == state.tile_count() {
        assert(all.take(k as int) =~= all);
    } else {
        let tile = spec_tile_bytes(input, state.tile_size, k);
        assert(all[k as int] == codec(tile));
        if codec(tile).len() <= limit {
            let next = state.accept(codec(tile))->Ok_0;
            assert(next.payloads =~= all.take(k as int + 1));
            lemma_compress_from(next, input, codec, k + 1);
            assert(spec_fit_from(all, limit, k) <==> spec_fit_from(all, limit, k + 1)) by {
                if spec_fit_from(all, limit, k + 1) {
                    assert forall|i: int| k <= i < all.len() implies (#[trigger] all[i]).len()
                        <= limit by {
                        if i > k {
                            assert(all[i].len() <= limit);
                        }
                    }
                }
            }
        } else {
            assert(!spec_fit_from(all, limit, k));
        }
    }
}

/// The payload of entry `k` lies in the joined entries behind the entries
/// before it.
pub proof fn lemma_flatten_slice(parts: Seq<Seq<u8>>, k: int)
    requires
        0 <= k < parts.len(),
    ensures
        parts.take(k + 1).flatten() == parts.take(k).flatten() + parts[k],
        parts.take(k).flatten().len() + parts[k].len() <= parts.flatten().len(),
        parts.flatten().subrange(
            parts.take(k).flatten().len() as int,
            (parts.take(k).flatten().len() + parts[k].len()) as int,
        ) == parts[k],
{
    let head = parts.take(k);
    let upto = parts.take(k + 1);
    let tail = parts.skip(k + 1);
    assert(upto =~= head.push(parts[k]));
    head.lemma_flatten_push(parts[k]);
    assert(parts =~= upto + tail);
    lemma_flatten_concat(upto, tail);
    assert(parts.flatten() =~= head.flatten() + parts[k] + tail.flatten());
    assert(parts.flatten().subrange(
        head.flatten().len() as int,
        (head.flatten().len() + parts[k].len()) as int,
    ) =~= parts[k]);
}

/// The tiles of an input, joined, are the input.
pub proof fn lemma_tiles_join(input: Seq<u8>, tile_size: nat)
    requires
        tile_size > 0,
    ensures
        spec_tiles_of(input, tile_size).flatten() == input,
{
    let tiles = spec_tiles_of(input, tile_size);
    lemma_tiles_join_upto(input, tile_size, tiles.len());
    assert(tiles.take(tiles.len() as int) =~= tiles);
    if tiles.len() == 0 {
        lemma_tile_in_range(0, input.len(), tile_size);
        assert(input =~= Seq::<u8>::empty());
    } else {
        lemma_tiles_adjoin((tiles.len() - 1) as nat, input.len(), tile_size);
        assert(input.subrange(0, input.len() as int) =~= input);
    }
}

/// The first `k` tiles of an input, joined, are the input up to the end of
/// tile `k - 1`.
proof fn lemma_tiles_join_upto(input: Seq<u8>, tile_size: nat, k: nat)
    requires
        tile_size > 0,
        k <= spec_tile_count(input.len(), tile_size),
    ensures
        k == 0 ==> spec_tiles_of(input, tile_size).take(k as int).flatten() == Seq::<u8>::empty(),
        k > 0 ==> spec_tiles_of(input, tile_size).take(k as int).flatten() == input.subrange(
            0,
            (spec_tile_offset((k - 1) as nat, tile_size) + spec_tile_len(
                (k - 1) as nat,
                input.len(),
                tile_size,
            )) as int,
        ),
    decreases k,
{
    let tiles = spec_tiles_of(input, tile_size);
    if k == 0 {
        assert(tiles.take(0) =~= Seq::<Seq<u8>>::empty());
    } else {
        let j = (k - 1) as nat;
        lemma_tiles_join_upto(input, tile_size, j);
        lemma_flatten_slice(tiles, j as int);
        lemma_tile_in_range(j, input.len(), tile_size);
        let end = spec_tile_offset(j, tile_size) + spec_tile_len(j, input.len(), tile_size);
        if j == 0 {
            assert(spec_tile_offset(0, tile_size) == 0) by (nonlinear_arith);
            assert(tiles.take(k as int).flatten() =~= input.subrange(0, end as int));
        } else {
            lemma_tiles_adjoin((j - 1) as nat, input.len(), tile_size);
            assert(tiles.take(k as int).flatten() =~= input.subrange(0, end as int));
        }
    }
}

/// A finished compression accounts for every byte: its tiles stand for as
/// many bytes as the input had, and its compressed bytes are as many as the
/// sizes recorded for them.
pub proof fn lemma_result_accounts(state: CompressState)
    requires
        state.wf(),
        state.is_done(),
    ensures
        state.result().uncompressed_len() == state.total_len,
        spec_payload_offset(state.result().tiles, state.result().tiles.len())
            == state.result().bytes.len(),
{
    let count = state.payloads.len();
    lemma_result_accounts_upto(state, count);
    assert(state.payloads.take(count as int) =~= state.payloads);
    if count == 0 {
        lemma_tile_in_range(0, state.total_len, state.tile_size);
    } else {
        lemma_tiles_adjoin((count - 1) as nat, state.total_len, state.tile_size);
    }
}

/// The first `k` tiles of a compression account for the payloads and for
/// the input up to the end of tile `k - 1`.
proof fn lemma_result_accounts_upto(state: CompressState, k: nat)
    requires
        state.wf(),
        k <= state.payloads.len(),
    ensures
        spec_payload_offset(state.tiles(), k) == state.payloads.take(k as int).flatten().len(),
        k == 0 ==> spec_output_len(state.tiles(), k) == 0,
        k > 0 ==> spec_output_len(state.tiles(), k) == spec_tile_offset(
            (k - 1) as nat,
            state.tile_size,
        ) + spec_tile_len((k - 1) as nat, state.total_len, state.tile_size),
    decreases k,
{
    if k == 0 {
        assert(state.payloads.take(0) =~= Seq::<Seq<u8>>::empty());
    } else {
        let j = (k - 1) as nat;
        lemma_result_accounts_upto(state, j);
        lemma_flatten_slice(state.payloads, j as int);
        lemma_tile_in_range(j, state.total_len, state.tile_size);
        assert(state.payloads[j as int].len() <= state.limit());
        if j > 0 {
            lemma_tiles_adjoin((j - 1) as nat, state.total_len, state.tile_size);
        } else {
            assert(spec_tile_offset(0, state.tile_size) == 0) by (nonlinear_arith);
        }
    }
}

/// Whether a compression holds what a codec made of the tiles of `input`.
pub open spec fn spec_holds_tiles_of(
    result: CompressionView,
    input: Seq<u8>,
    tile_size: nat,
    codec: spec_fn(Seq<u8>) -> Seq<u8>,
) -> bool {
    let payloads = spec_payloads_of(input, tile_size, codec);
    &&& result.bytes == payloads.flatten()
    &&& result.tiles.len() == payloads.len()
    &&& forall|i: int|
        0 <= i < payloads.len() ==> (#[trigger] result.tiles[i]).compressed_size
            == payloads[i].len() && result.tiles[i].uncompressed_size == spec_tile_len(
            i as nat,
            input.len(),
            tile_size,
        )
}

/// The payload of tile `k` begins behind the payloads of the tiles before it.
proof fn lemma_payload_offsets(
    result: CompressionView,
    input: Seq<u8>,
    tile_size: nat,
    codec: spec_fn(Seq<u8>) -> Seq<u8>,
    k: nat,
)
    requires
        spec_holds_tiles_of(result, input, tile_size, codec),
        k <= result.tiles.len(),
    ensures
        spec_payload_offset(result.tiles, k) == spec_payloads_of(input, tile_size, codec).take(
            k as int,
        ).flatten().len(),
    decreases k,
{
    let payloads = spec_payloads_of(input, tile_size, codec);
    if k == 0 {
        assert(payloads.take(0) =~= Seq::<Seq<u8>>::empty());
    } else {
        lemma_payload_offsets(result, input, tile_size, codec, (k - 1) as nat);
        lemma_flatten_slice(payloads, k - 1);
    }
}

/// A decompression that has taken in the first `k` tiles of the input runs
/// on to the whole input.
proof fn lemma_decompress_from(
    state: DecompressState,
    result: CompressionView,
    input: Seq<u8>,
    tile_size: nat,
    codec: spec_fn(Seq<u8>) -> Seq<u8>,
    decoder: spec_fn(Seq<u8>, nat) -> (EngineStatus, Seq<u8>),
    k: nat,
)
    requires
        tile_size > 0,
        spec_holds_tiles_of(result, input, tile_size, codec),
        spec_codec_inverts(codec, decoder, tile_size),
        state.tiles == result.tiles,
        state.payload_len == result.bytes.len(),
        k <= result.tiles.len(),
        state.outputs == spec_tiles_of(input, tile_size).take(k as int),
    ensures
        spec_decompress_from(state, result.bytes, decoder) == Ok::<Seq<u8>, Error>(input),
    decreases result.tiles.len() - k,
{
    let payloads = spec_payloads_of(input, tile_size, codec);
    let tiles = spec_tiles_of(input, tile_size);
    lemma_payload_offsets(result, input, tile_size, codec, k);
    if k == result.tiles.len() {
        assert(payloads.take(k as int) =~= payloads);
        assert(tiles.take(k as int) =~= tiles);
        lemma_tiles_join(input, tile_size);
    } else {
        lemma_flatten_slice(payloads, k as int);
        lemma_tile_in_range(k, input.len(), tile_size);
        let tile = tiles[k as int];
        assert(tile.len() == spec_tile_len(k, input.len(), tile_size));
        let recorded = result.tiles[k as int];
        assert(recorded.compressed_size == payloads[k as int].len());
        assert(state.obstacle() is None);
        let payload = result.bytes.subrange(
            state.next_offset() as int,
            state.next_offset() + recorded.compressed_size,
        );
        assert(payload == payloads[k as int]);
        assert(payloads[k as int] == codec(tile));
        let answer = decoder(payload, recorded.uncompressed_size as nat);
        assert(answer == (EngineStatus::Success, tile));
        let next = state.accept(answer.0, answer.1)->Ok_0;
        assert(next.outputs =~= tiles.take(k as int + 1));
        lemma_decompress_from(next, result, input, tile_size, codec, decoder, k + 1);
    }
}

/// Bytes that were compressed tile by tile decompress to themselves: if the
/// compression of any bytes in tiles of any size succeeded, whatever the
/// codec and its bound, and the decoder gives back every tile from the
/// payload the codec made of it, the decompression succeeds with those
/// bytes.
pub proof fn lemma_round_trip(
    input: Seq<u8>,
    tile_size: nat,
    bound: nat,
    codec: spec_fn(Seq<u8>) -> Seq<u8>,
    decoder: spec_fn(Seq<u8>, nat) -> (EngineStatus, Seq<u8>),
)
    requires
        0 < tile_size <= u32::MAX,
        spec_compress(input, tile_size, bound, codec) is Ok,
        spec_codec_inverts(codec, decoder, tile_size),
    ensures
        spec_decompress(spec_compress(input, tile_size, bound, codec)->Ok_0, decoder) == Ok::<
            Seq<u8>,
            Error,
        >(input),
{
    lemma_compressed_tiles(input, tile_size, bound, codec);
    let result = spec_compress(input, tile_size, bound, codec)->Ok_0;
    let start = DecompressState::initial(result.tiles, result.bytes.len());
    assert(start.outputs =~= spec_tiles_of(input, tile_size).take(0));
    lemma_decompress_from(start, result, input, tile_size, codec, decoder, 0);
}

/// What a compression that succeeded records, whatever the codec: the tile
/// size; one tile for each tile of the input, with the length of its payload
/// and the length of the tile; every tile but the last a whole tile, the
/// last of at least one byte and at most a tile; the lengths of the tiles
/// adding up to the length of the input, and the lengths of the payloads to
/// the length of the compressed bytes.
pub proof fn lemma_compressed_tiles(
    input: Seq<u8>,
    tile_size: nat,
    bound: nat,
    codec: spec_fn(Seq<u8>) -> Seq<u8>,
)
    requires
        0 < tile_size <= u32::MAX,
        spec_compress(input, tile_size, bound, codec) is Ok,
    ensures
        ({
            let result = spec_compress(input, tile_size, bound, codec)->Ok_0;
            let count = spec_tile_count(input.len(), tile_size);
            &&& result == spec_compressed(input, tile_size, bound, codec)
            &&& spec_holds_tiles_of(result, input, tile_size, codec)
            &&& result.tile_size == tile_size
            &&& result.tiles.len() == count
            &&& forall|i: int|
                0 <= i < count - 1 ==> (#[trigger] result.tiles[i]).uncompressed_size == tile_size
            &&& count > 0 ==> 0 < result.tiles[count - 1].uncompressed_size <= tile_size
            &&& count > 0 && input.len() % tile_size == 0 ==> result.tiles[count
                - 1].uncompressed_size == tile_size
            &&& result.uncompressed_len() == input.len()
            &&& spec_payload_offset(result.tiles, count) == result.bytes.len()
        }),
{
    lemma_compress_outcome(input, tile_size, bound, codec);
    let result = spec_compress(input, tile_size, bound, codec)->Ok_0;
    let payloads = spec_payloads_of(input, tile_size, codec);
    let count = spec_tile_count(input.len(), tile_size);
    let state = CompressState { total_len: input.len(), tile_size, bound, payloads };
    assert(spec_payloads_fit(input, tile_size, bound, codec));
    assert forall|i: int| 0 <= i < payloads.len() implies (#[trigger] result.tiles[i]).compressed_size
        == payloads[i].len() && result.tiles[i].uncompressed_size == spec_tile_len(
        i as nat,
        input.len(),
        tile_size,
    ) by {
        lemma_tile_in_range(i as nat, input.len(), tile_size);
        assert(payloads[i].len() <= spec_limit(bound));
    }
    assert forall|i: int| 0 <= i < count - 1 implies (#[trigger] result.tiles[i]).uncompressed_size
        == tile_size by {
        lemma_tiles_adjoin(i as nat, input.len(), tile_size);
    }
    if count > 0 {
        lemma_tiles_adjoin((count - 1) as nat, input.len(), tile_size);
        lemma_tile_in_range((count - 1) as nat, input.len(), tile_size);
        if input.len() % tile_size == 0 {
            lemma_last_tile((count - 1) as nat, tile_size, tile_size);
            assert(input.len() == (count - 1) * tile_size + tile_size) by (nonlinear_arith)
                requires
                    input.len() % tile_size == 0,
                    count == input.len() / tile_size,
                    tile_size > 0,
                    count > 0,
            ;
        }
    }
    assert(state.wf()) by {
        assert forall|i: int| 0 <= i < state.payloads.len() implies (#[trigger] state.payloads[i]).len()
            <= state.limit() by {
            assert(payloads[i].len() <= spec_limit(bound));
        }
    }
    lemma_result_accounts(state);
}

/// A compression is fixed by what the codec makes of the tiles of its own
/// input: two codecs that make the same payload of every tile of `input`
/// come to the same compression of it, whatever else they differ in and
/// whatever either has compressed before.
pub proof fn lemma_same_payloads_same_result(
    input: Seq<u8>,
    tile_size: nat,
    bound: nat,
    used: spec_fn(Seq<u8>) -> Seq<u8>,
    fresh: spec_fn(Seq<u8>) -> Seq<u8>,
)
    requires
        spec_payloads_of(input, tile_size, used) == spec_payloads_of(input, tile_size, fresh),
    ensures
        spec_compress(input, tile_size, bound, used) == spec_compress(
            input,
            tile_size,
            bound,
            fresh,
        ),
{
    lemma_same_payloads_from(
        CompressState::initial(input.len(), tile_size, bound),
        input,
        used,
        fresh,
    );
}

/// Two codecs that make the same payload of every tile of `input` run on
/// from any state of its compression to the same end.
proof fn lemma_same_payloads_from(
    state: CompressState,
    input: Seq<u8>,
    used: spec_fn(Seq<u8>) -> Seq<u8>,
    fresh: spec_fn(Seq<u8>) -> Seq<u8>,
)
    requires
        state.total_len == input.len(),
        spec_payloads_of(input, state.tile_size, used) == spec_payloads_of(
            input,
            state.tile_size,
            fresh,
        ),
    ensures
        spec_compress_from(state, input, used) == spec_compress_from(state, input, fresh),
    decreases state.tile_count() - state.payloads.len(),
{
    if !state.is_done() {
        let k = state.payloads.len() as int;
        let tile = spec_tile_bytes(input, state.tile_size, k as nat);
        assert(spec_payloads_of(input, state.tile_size, used)[k] == used(tile));
        assert(spec_payloads_of(input, state.tile_size, fresh)[k] == fresh(tile));
        match state.accept(used(tile)) {
            Ok(next) => {
                lemma_same_payloads_from(next, input, used, fresh);
            },
            Err(_) => {},
        }
    }
}

/// Bytes that fill a whole number of tiles of the container's tile size, no
/// more of them than a header counts, come back from their container: if
/// their compression succeeded, it reads back from its stream as what it
/// was, and decompresses to the bytes.
pub proof fn lemma_container_round_trip(
    input: Seq<u8>,
    bound: nat,
    codec: spec_fn(Seq<u8>) -> Seq<u8>,
    decoder: spec_fn(Seq<u8>, nat) -> (EngineStatus, Seq<u8>),
)
    requires
        input.len() % DEFAULT_TILE_SIZE as nat == 0,
        input.len() / DEFAULT_TILE_SIZE as nat <= u16::MAX,
        spec_compress(input, DEFAULT_TILE_SIZE as nat, bound, codec) is Ok,
        spec_codec_inverts(codec, decoder, DEFAULT_TILE_SIZE as nat),
    ensures
        ({
            let result = spec_compress(input, DEFAULT_TILE_SIZE as nat, bound, codec)->Ok_0;
            &&& spec_parse(result.stream()) == Ok::<CompressionView, Error>(result)
            &&& spec_decompress(result, decoder) == Ok::<Seq<u8>, Error>(input)
        }),
{
    let tile_size = DEFAULT_TILE_SIZE as nat;
    lemma_compressed_tiles(input, tile_size, bound, codec);
    lemma_round_trip(input, tile_size, bound, codec, decoder);
    let result = spec_compress(input, tile_size, bound, codec)->Ok_0;
    assert forall|i: int| 0 <= i < result.tiles.len() implies (#[trigger] result.tiles[i]).uncompressed_size
        == DEFAULT_TILE_SIZE by {
        if i == result.tiles.len() - 1 {
        }
    }
    lemma_stream_read_back(result);
}

} // verus!
