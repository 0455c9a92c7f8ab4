//! The bookkeeping of one decompression.
//!
//! A decompression walks the tiles of a finished compression in order. For
//! each tile the job says where the tile's payload lies and how many bytes it
//! must decompress to; the caller hands that payload to the block codec and
//! brings back the codec's verdict and the bytes it produced. The output is
//! handed out once, when every tile is in: a failure on the way leaves
//! nothing behind.

use vstd::prelude::*;

use crate::{CompressionResult, EngineStatus, Error, Tile};

verus! {

/// Where the payload of tile `index` begins: the compressed sizes of all
/// tiles before it, added up.
pub open spec fn spec_payload_offset(tiles: Seq<Tile>, index: nat) -> nat
    recommends
        index <= tiles.len(),
    decreases index,
{
    if index == 0 || index > tiles.len() {
        0
    } else {
        spec_payload_offset(tiles, (index - 1) as nat) + tiles[index - 1].compressed_size as nat
    }
}

/// The number of bytes that the first `index` tiles decompress to.
pub open spec fn spec_output_len(tiles: Seq<Tile>, index: nat) -> nat
    recommends
        index <= tiles.len(),
    decreases index,
{
    if index == 0 || index > tiles.len() {
        0
    } else {
        spec_output_len(tiles, (index - 1) as nat) + tiles[index - 1].uncompressed_size as nat
    }
}

/// What a decompression has taken in so far: the tiles and the length of the
/// payload it was started with, and the bytes of every tile that was
/// accepted, in order.
pub struct DecompressState {
    /// The sizes of every tile.
    pub tiles: Seq<Tile>,
    /// The number of compressed bytes at hand.
    pub payload_len: nat,
    /// The decompressed tiles so far, entry `i` being the bytes of tile `i`.
    pub outputs: Seq<Seq<u8>>,
}

impl DecompressState {
    /// The state before any tile.
    pub open spec fn initial(tiles: Seq<Tile>, payload_len: nat) -> DecompressState {
        DecompressState { tiles, payload_len, outputs: Seq::empty() }
    }

    /// A state that a decompression can be in.
    pub open spec fn wf(self) -> bool {
        &&& self.outputs.len() <= self.tiles.len()
        &&& spec_payload_offset(self.tiles, self.outputs.len()) <= self.payload_len
        &&& forall|i: int|
            0 <= i < self.outputs.len() ==> (#[trigger] self.outputs[i]).len()
                == self.tiles[i].uncompressed_size
    }

    /// Whether every tile has its bytes.
    pub open spec fn is_done(self) -> bool {
        self.outputs.len() >= self.tiles.len()
    }

    /// The tile whose bytes are wanted next.
    pub open spec fn next_tile(self) -> Tile
        recommends
            !self.is_done(),
    {
        self.tiles[self.outputs.len() as int]
    }

    /// Where the payload of the next tile begins.
    pub open spec fn next_offset(self) -> nat {
        spec_payload_offset(self.tiles, self.outputs.len())
    }

    /// What stands in the way of going on, if anything: a next tile whose
    /// payload would reach past the end of the compressed bytes, or, with
    /// every tile in, compressed bytes that no tile accounts for.
    pub open spec fn obstacle(self) -> Option<Error> {
        if self.is_done() {
            if self.next_offset() != self.payload_len {
                Some(Error::TrailingData)
            } else {
                None
            }
        } else if self.next_offset() + self.next_tile().compressed_size > self.payload_len {
            Some(Error::TruncatedPayload)
        } else {
            None
        }
    }

    /// The state after the codec's answer for the next tile came in. The
    /// bytes are kept if the codec succeeded and produced as many as the tile
    /// records; every other answer is an error of its own.
    pub open spec fn accept(self, status: EngineStatus, produced: Seq<u8>) -> Result<
        DecompressState,
        Error,
    > {
        match status {
            EngineStatus::BadData => Err(Error::BadData),
            EngineStatus::ShortOutput => Err(Error::ShortOutput),
            EngineStatus::InsufficientSpace => Err(Error::InsufficientSpace),
            EngineStatus::Success => if produced.len() != self.next_tile().uncompressed_size {
                Err(Error::CorruptTile)
            } else {
                Ok(DecompressState { outputs: self.outputs.push(produced), ..self })
            },
        }
    }

    /// The decompressed tiles one behind the other.
    pub open spec fn output(self) -> Seq<u8> {
        self.outputs.flatten()
    }
}

/// A decompression that still waits for the bytes of a tile.
pub struct DecompressJob<'a> {
    tiles: &'a [Tile],
    payload_len: usize,
    next: usize,
    offset: usize,
    output: Vec<u8>,
    outputs: Ghost<Seq<Seq<u8>>>,
}

/// What a decompression asks for next.
pub enum DecompressStep<'a> {
    /// Decompress the `compressed_len` bytes of the payload from `offset` on,
    /// which must give `uncompressed_len` bytes, and hand the answer to `job`.
    Tile { job: DecompressJob<'a>, offset: usize, compressed_len: usize, uncompressed_len: usize },
    /// Every tile is in: these are the decompressed bytes.
    Done(Vec<u8>),
}

impl<'a> DecompressStep<'a> {
    /// Whether this step is the one that follows from `state`: the request
    /// for the next tile while tiles are missing, the output once none is.
    pub open spec fn follows(self, state: DecompressState) -> bool {
        match self {
            DecompressStep::Tile { job, offset, compressed_len, uncompressed_len } => {
                &&& !state.is_done()
                &&& job@ == state
                &&& offset == state.next_offset()
                &&& compressed_len == state.next_tile().compressed_size
                &&& uncompressed_len == state.next_tile().uncompressed_size
                &&& offset + compressed_len <= state.payload_len
            },
            DecompressStep::Done(output) => {
                &&& state.is_done()
                &&& output@ == state.output()
                &&& output@.len() == spec_output_len(state.tiles, state.tiles.len())
            },
        }
    }
}

/// Whether `step` is what `state` leads to: the error that stands in the way,
/// or else the step that follows.
pub open spec fn spec_leads_to(state: DecompressState, step: Result<DecompressStep, Error>) -> bool {
    match state.obstacle() {
        Some(e) => step == Err::<DecompressStep, Error>(e),
        None => step is Ok && step->Ok_0.follows(state),
    }
}

impl<'a> View for DecompressJob<'a> {
    type V = DecompressState;

    closed spec fn view(&self) -> DecompressState {
        DecompressState {
            tiles: self.tiles@,
            payload_len: self.payload_len as nat,
            outputs: self.outputs@,
        }
    }
}

impl<'a> DecompressJob<'a> {
    #[verifier::type_invariant]
    spec fn inv(self) -> bool {
        &&& self@.wf()
        &&& !self@.is_done()
        &&& self@.obstacle() is None
        &&& self.next == self@.outputs.len()
        &&& self.offset == self@.next_offset()
        &&& self.output@ == self@.output()
    }

    /// Begins the decompression of `result`.
    pub fn start(result: CompressionResult<'a>) -> (step: Result<DecompressStep<'a>, Error>)
        ensures
            spec_leads_to(DecompressState::initial(result@.tiles, result@.bytes.len()), step),
    {
        let parts = DecompressParts {
            tiles: result.tiles,
            payload_len: result.bytes.len(),
            next: 0,
            offset: 0,
            output: Vec::new(),
            outputs: Ghost(Seq::empty()),
        };
        parts.step()
    }

    /// Takes the codec's answer for the tile that was asked for: its verdict
    /// and the bytes it produced.
    pub fn advance(self, status: EngineStatus, produced: &[u8]) -> (step: Result<
        DecompressStep<'a>,
        Error,
    >)
        ensures
            match self@.accept(status, produced@) {
                Ok(state) => spec_leads_to(state, step),
                Err(e) => step == Err::<DecompressStep, Error>(e),
            },
    {
        proof {
            use_type_invariant(&self);
        }
        let ghost before = self@;
        let DecompressJob { tiles, payload_len, next, offset, output, outputs } = self;
        let mut output = output;
        match status {
            EngineStatus::BadData => { return Err(Error::BadData); },
            EngineStatus::ShortOutput => { return Err(Error::ShortOutput); },
            EngineStatus::InsufficientSpace => { return Err(Error::InsufficientSpace); },
            EngineStatus::Success => {},
        }
        let tile: Tile = tiles[next];
        if produced.len() != tile.uncompressed_size as usize {
            return Err(Error::CorruptTile);
        }
        output.extend_from_slice(produced);
        let parts = DecompressParts {
            tiles,
            payload_len,
            next: next + 1,
            offset: offset + tile.compressed_size as usize,
            output,
            outputs: Ghost(outputs@.push(produced@)),
        };
        proof {
            before.outputs.lemma_flatten_push(produced@);
            assert(parts.output@ =~= parts.view().output());
        }
        parts.step()
    }
}

/// The fields of a job, before it is known whether it can go on.
struct DecompressParts<'a> {
    tiles: &'a [Tile],
    payload_len: usize,
    next: usize,
    offset: usize,
    output: Vec<u8>,
    outputs: Ghost<Seq<Seq<u8>>>,
}

impl<'a> DecompressParts<'a> {
    spec fn view(&self) -> DecompressState {
        DecompressState {
            tiles: self.tiles@,
            payload_len: self.payload_len as nat,
            outputs: self.outputs@,
        }
    }

    /// Decides what comes next: an error, the next tile, or the output.
    fn step(self) -> (step: Result<DecompressStep<'a>, Error>)
        requires
            self.view().wf(),
            self.next == self.view().outputs.len(),
            self.offset == self.view().next_offset(),
            self.output@ == self.view().output(),
        ensures
            spec_leads_to(self.view(), step),
    {
        if self.next >= self.tiles.len() {
            if self.offset != self.payload_len {
                return Err(Error::TrailingData);
            }
            proof {
                lemma_output_len(self.view(), self.view().outputs.len());
                assert(self.view().outputs.take(self.view().outputs.len() as int)
                    =~= self.view().outputs);
            }
            return Ok(DecompressStep::Done(self.output));
        }
        let tile: Tile = self.tiles[self.next];
        if tile.compressed_size as usize > self.payload_len - self.offset {
            return Err(Error::TruncatedPayload);
        }
        let job = DecompressJob {
            tiles: self.tiles,
            payload_len: self.payload_len,
            next: self.next,
            offset: self.offset,
            output: self.output,
            outputs: self.outputs,
        };
        Ok(
            DecompressStep::Tile {
                job,
                offset: self.offset,
                compressed_len: tile.compressed_size as usize,
                uncompressed_len: tile.uncompressed_size as usize,
            },
        )
    }
}

/// The first `k` decompressed tiles together are as long as their tiles record.
proof fn lemma_output_len(state: DecompressState, k: nat)
    requires
        state.wf(),
        k <= state.outputs.len(),
    ensures
        state.outputs.take(k as int).flatten().len() == spec_output_len(state.tiles, k),
    decreases k,
{
    if k == 0 {
        assert(state.outputs.take(0) =~= Seq::<Seq<u8>>::empty());
    } else {
        lemma_output_len(state, (k - 1) as nat);
        let head = state.outputs.take(k - 1);
        assert(state.outputs.take(k as int) =~= head.push(state.outputs[k - 1]));
        head.lemma_flatten_push(state.outputs[k - 1]);
    }
}

} // verus!
