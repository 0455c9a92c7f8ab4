//! The bookkeeping of one compression.
//!
//! A compression walks the tiles of its input in order. For each tile the
//! caller hands the tile's bytes to the block codec and brings back the pages
//! that the codec produced; the job joins the pages into the tile's payload,
//! checks its size, appends it and records it. When the last tile is in, the
//! job turns into the finished result.

use vstd::prelude::*;

use crate::planner::{
    lemma_tile_in_range, spec_tile_count, spec_tile_len, spec_tile_offset, tile_bounds,
};
use crate::{CompressionView, Error, OwnedCompressionResult, Tile};

verus! {

/// The bytes of all pages, one page behind the other.
pub open spec fn spec_join(pages: Seq<&[u8]>) -> Seq<u8> {
    pages.map_values(|page: &[u8]| page@).flatten()
}

/// What a compression has taken in so far: the lengths it was started with and
/// the payload of every tile that was accepted, in order.
pub struct CompressState {
    /// Length of the whole input.
    pub total_len: nat,
    /// Length of every tile but possibly the last.
    pub tile_size: nat,
    /// The codec's bound on the payload of one tile.
    pub bound: nat,
    /// The payloads accepted so far, payload `i` being that of tile `i`.
    pub payloads: Seq<Seq<u8>>,
}

impl CompressState {
    /// The state before any tile.
    pub open spec fn initial(total_len: nat, tile_size: nat, bound: nat) -> CompressState {
        CompressState { total_len, tile_size, bound, payloads: Seq::empty() }
    }

    /// The most bytes that one payload may have: the codec's bound, and no
    /// more than a size table entry can record.
    pub open spec fn limit(self) -> nat {
        if self.bound <= u32::MAX {
            self.bound
        } else {
            u32::MAX as nat
        }
    }

    /// The number of tiles of the input.
    pub open spec fn tile_count(self) -> nat {
        spec_tile_count(self.total_len, self.tile_size)
    }

    /// A state that a compression can be in.
    pub open spec fn wf(self) -> bool {
        &&& 0 < self.tile_size <= u32::MAX
        &&& self.payloads.len() <= self.tile_count()
        &&& forall|i: int|
            0 <= i < self.payloads.len() ==> (#[trigger] self.payloads[i]).len() <= self.limit()
    }

    /// Whether every tile has its payload.
    pub open spec fn is_done(self) -> bool {
        self.payloads.len() >= self.tile_count()
    }

    /// Where the tile begins whose payload is wanted next.
    pub open spec fn next_offset(self) -> nat {
        spec_tile_offset(self.payloads.len(), self.tile_size)
    }

    /// The length of the tile whose payload is wanted next.
    pub open spec fn next_len(self) -> nat {
        spec_tile_len(self.payloads.len(), self.total_len, self.tile_size)
    }

    /// The state after the next tile's payload came in: the payload is kept if
    /// it is within the limit and refused if it is not.
    pub open spec fn accept(self, payload: Seq<u8>) -> Result<CompressState, Error> {
        if payload.len() > self.limit() {
            Err(Error::BoundExceeded)
        } else {
            Ok(CompressState { payloads: self.payloads.push(payload), ..self })
        }
    }

    /// The payloads one behind the other.
    pub open spec fn bytes(self) -> Seq<u8> {
        self.payloads.flatten()
    }

    /// The sizes recorded for each tile that has its payload.
    pub open spec fn tiles(self) -> Seq<Tile> {
        Seq::new(
            self.payloads.len(),
            |i: int|
                Tile {
                    compressed_size: self.payloads[i].len() as u32,
                    uncompressed_size: spec_tile_len(i as nat, self.total_len, self.tile_size) as u32,
                },
        )
    }

    /// The compression that this state amounts to.
    pub open spec fn result(self) -> CompressionView {
        CompressionView {
            bytes: self.bytes(),
            tiles: self.tiles(),
            tile_size: self.tile_size as u32,
        }
    }
}

/// A compression that still waits for the payload of a tile.
pub struct CompressJob {
    total_len: usize,
    tile_size: usize,
    bound: usize,
    length: usize,
    bytes: Vec<u8>,
    tiles: Vec<Tile>,
    payloads: Ghost<Seq<Seq<u8>>>,
}

/// What a compression asks for next.
pub enum CompressStep {
    /// Compress `length` bytes of the input from `offset` on, and hand the
    /// pages to `job`.
    Tile { job: CompressJob, offset: usize, length: usize },
    /// Every tile is in: this is the result.
    Done(OwnedCompressionResult),
}

impl CompressStep {
    /// Whether this step is the one that follows from `state`: the request
    /// for the next tile while tiles are missing, the result once none is.
    pub open spec fn follows(self, state: CompressState) -> bool {
        match self {
            CompressStep::Tile { job, offset, length } => {
                &&& !state.is_done()
                &&& job@ == state
                &&& offset == state.next_offset()
                &&& length == state.next_len()
                &&& offset + length <= state.total_len
                &&& length > 0
            },
            CompressStep::Done(result) => state.is_done() && result@ == state.result(),
        }
    }
}

impl View for CompressJob {
    type V = CompressState;

    closed spec fn view(&self) -> CompressState {
        CompressState {
            total_len: self.total_len as nat,
            tile_size: self.tile_size as nat,
            bound: self.bound as nat,
            payloads: self.payloads@,
        }
    }
}

impl CompressJob {
    #[verifier::type_invariant]
    spec fn inv(self) -> bool {
        &&& self@.wf()
        &&& !self@.is_done()
        &&& self.length == self@.next_len()
        &&& self.bytes@ == self@.bytes()
        &&& self.tiles@ == self@.tiles()
    }

    /// Begins the compression of `total_len` bytes in tiles of `tile_size`
    /// bytes, with `bound` the codec's bound on one tile's payload. The tile
    /// size must be at least 1 and fit in 32 bits, in which the result
    /// records it.
    pub fn start(total_len: usize, tile_size: usize, bound: usize) -> (step: CompressStep)
        requires
            0 < tile_size <= u32::MAX,
        ensures
            step.follows(CompressState::initial(total_len as nat, tile_size as nat, bound as nat)),
    {
        let job = CompressParts {
            total_len,
            tile_size,
            bound,
            bytes: Vec::new(),
            tiles: Vec::new(),
            payloads: Ghost(Seq::empty()),
        };
        proof {
            assert(job.view().bytes() =~= Seq::<u8>::empty());
            assert(job.view().tiles() =~= Seq::<Tile>::empty());
        }
        job.step()
    }

    /// Takes the pages that the codec produced for the tile that was asked
    /// for. Their bytes, joined, become the tile's payload. A payload over
    /// the limit ends the compression.
    pub fn advance(self, pages: &[&[u8]]) -> (step: Result<CompressStep, Error>)
        ensures
            match self@.accept(spec_join(pages@)) {
                Ok(state) => step is Ok && step->Ok_0.follows(state),
                Err(e) => step == Err::<CompressStep, Error>(e),
            },
    {
        proof {
            use_type_invariant(&self);
        }
        let ghost before = self@;
        let ghost joined = spec_join(pages@);
        let CompressJob { total_len, tile_size, bound, length, bytes, tiles, payloads } = self;
        let mut bytes = bytes;
        let mut tiles = tiles;
        let total: usize = match joined_len(pages) {
            Some(total) => total,
            None => { return Err(Error::BoundExceeded); },
        };
        if total > bound || total > u32::MAX as usize {
            return Err(Error::BoundExceeded);
        }
        let ghost old_bytes = bytes@;
        let mut i: usize = 0;
        while i < pages.len()
            invariant
                i <= pages.len(),
                bytes@ == old_bytes + spec_join(pages@.take(i as int)),
            decreases pages.len() - i,
        {
            proof {
                lemma_join_take_next(pages@, i as int);
            }
            bytes.extend_from_slice(pages[i]);
            i = i + 1;
        }
        assert(pages@.take(pages@.len() as int) =~= pages@);
        tiles.push(Tile { compressed_size: total as u32, uncompressed_size: length as u32 });
        let parts = CompressParts {
            total_len,
            tile_size,
            bound,
            bytes,
            tiles,
            payloads: Ghost(payloads@.push(joined)),
        };
        proof {
            let state = before.accept(joined)->Ok_0;
            assert(parts.view() == state);
            before.payloads.lemma_flatten_push(joined);
            assert(parts.tiles@ =~= state.tiles());
        }
        Ok(parts.step())
    }
}

/// The fields of a job, before it is known whether a tile is still missing.
struct CompressParts {
    total_len: usize,
    tile_size: usize,
    bound: usize,
    bytes: Vec<u8>,
    tiles: Vec<Tile>,
    payloads: Ghost<Seq<Seq<u8>>>,
}

impl CompressParts {
    spec fn view(&self) -> CompressState {
        CompressState {
            total_len: self.total_len as nat,
            tile_size: self.tile_size as nat,
            bound: self.bound as nat,
            payloads: self.payloads@,
        }
    }

    /// Decides what comes next: the next tile, or the result.
    fn step(self) -> (step: CompressStep)
        requires
            self.view().wf(),
            self.bytes@ == self.view().bytes(),
            self.tiles@ == self.view().tiles(),
        ensures
            step.follows(self.view()),
    {
        proof {
            lemma_tile_in_range(self.tiles@.len(), self.total_len as nat, self.tile_size as nat);
        }
        match tile_bounds(self.tiles.len(), self.total_len, self.tile_size) {
            Ok((offset, length)) => {
                let job = CompressJob {
                    total_len: self.total_len,
                    tile_size: self.tile_size,
                    bound: self.bound,
                    length,
                    bytes: self.bytes,
                    tiles: self.tiles,
                    payloads: self.payloads,
                };
                CompressStep::Tile { job, offset, length }
            },
            Err(_) => CompressStep::Done(
                OwnedCompressionResult {
                    bytes: self.bytes,
                    tiles: self.tiles,
                    tile_size: self.tile_size as u32,
                },
            ),
        }
    }
}

/// The number of bytes of all pages together, if a `usize` can hold it.
fn joined_len(pages: &[&[u8]]) -> (total: Option<usize>)
    ensures
        match total {
            Some(n) => n == spec_join(pages@).len(),
            None => spec_join(pages@).len() > usize::MAX,
        },
{
    let mut total: usize = 0;
    let mut i: usize = 0;
    while i < pages.len()
        invariant
            i <= pages.len(),
            total == spec_join(pages@.take(i as int)).len(),
        decreases pages.len() - i,
    {
        proof {
            lemma_join_take_next(pages@, i as int);
            lemma_join_take_len_le(pages@, i as int + 1);
        }
        match total.checked_add(pages[i].len()) {
            Some(sum) => { total = sum; },
            None => { return None; },
        }
        i = i + 1;
    }
    assert(pages@.take(pages@.len() as int) =~= pages@);
    Some(total)
}

/// Joining one page more appends that page.
proof fn lemma_join_take_next(pages: Seq<&[u8]>, i: int)
    requires
        0 <= i < pages.len(),
    ensures
        spec_join(pages.take(i + 1)) == spec_join(pages.take(i)) + pages[i]@,
{
    let views = pages.map_values(|page: &[u8]| page@);
    assert(pages.take(i + 1).map_values(|page: &[u8]| page@) =~= pages.take(i).map_values(
        |page: &[u8]| page@,
    ).push(pages[i]@));
    pages.take(i).map_values(|page: &[u8]| page@).lemma_flatten_push(pages[i]@);
}

/// The first pages joined are no longer than all pages joined.
proof fn lemma_join_take_len_le(pages: Seq<&[u8]>, i: int)
    requires
        0 <= i <= pages.len(),
    ensures
        spec_join(pages.take(i)).len() <= spec_join(pages).len(),
    decreases pages.len() - i,
{
    if i < pages.len() {
        lemma_join_take_next(pages, i);
        lemma_join_take_len_le(pages, i + 1);
    } else {
        assert(pages.take(i) =~= pages);
    }
}

} // verus!
