use gdeflate::compressor::{CompressJob, CompressStep};
use gdeflate::decompressor::{DecompressJob, DecompressStep};
use gdeflate::header::Header;
use gdeflate::{CompressionResult, EngineStatus, Error, OwnedCompressionResult, Tile};

/// A stand-in for the block codec: runs of equal bytes as pairs of a count
/// and the byte.
struct Runs {
    scratch: Vec<u8>,
    calls: usize,
}

impl Runs {
    fn new() -> Self {
        Runs { scratch: Vec::new(), calls: 0 }
    }

    fn bound(tile_size: usize) -> usize {
        2 * tile_size
    }

    fn encode(&mut self, tile: &[u8]) -> &[u8] {
        self.calls += 1;
        self.scratch.clear();
        let mut i = 0;
        while i < tile.len() {
            let byte = tile[i];
            let mut run = 1;
            while i + run < tile.len() && tile[i + run] == byte && run < 255 {
                run += 1;
            }
            self.scratch.push(run as u8);
            self.scratch.push(byte);
            i += run;
        }
        &self.scratch
    }

    fn decode(payload: &[u8], expected: usize) -> (EngineStatus, Vec<u8>) {
        if payload.len() % 2 != 0 {
            return (EngineStatus::BadData, Vec::new());
        }
        let mut out = Vec::new();
        for pair in payload.chunks(2) {
            if pair[0] == 0 {
                return (EngineStatus::BadData, Vec::new());
            }
            for _ in 0..pair[0] {
                out.push(pair[1]);
            }
        }
        if out.len() > expected {
            return (EngineStatus::InsufficientSpace, Vec::new());
        }
        (EngineStatus::Success, out)
    }
}

fn compress_with(
    engine: &mut Runs,
    input: &[u8],
    tile_size: usize,
    page_size: usize,
) -> Result<OwnedCompressionResult, Error> {
    let mut step = CompressJob::start(input.len(), tile_size, Runs::bound(tile_size));
    loop {
        match step {
            CompressStep::Tile { job, offset, length } => {
                let payload = engine.encode(&input[offset..offset + length]);
                let pages: Vec<&[u8]> = payload.chunks(page_size).collect();
                step = job.advance(&pages)?;
            }
            CompressStep::Done(result) => return Ok(result),
        }
    }
}

fn compress(input: &[u8], tile_size: usize) -> Result<OwnedCompressionResult, Error> {
    compress_with(&mut Runs::new(), input, tile_size, usize::MAX)
}

fn decompress(result: CompressionResult) -> Result<Vec<u8>, Error> {
    let bytes = result.bytes;
    let mut step = DecompressJob::start(result)?;
    loop {
        match step {
            DecompressStep::Tile { job, offset, compressed_len, uncompressed_len } => {
                let (status, produced) =
                    Runs::decode(&bytes[offset..offset + compressed_len], uncompressed_len);
                step = job.advance(status, &produced)?;
            }
            DecompressStep::Done(output) => return Ok(output),
        }
    }
}

fn compress_and_uncompress(uncompressed_bytes: &[u8], tile_size: usize) {
    let result = compress(uncompressed_bytes, tile_size).unwrap();
    let reconstructed_bytes = decompress((&result).into()).unwrap();
    assert_eq!(uncompressed_bytes, reconstructed_bytes);
}

fn pattern(len: usize) -> Vec<u8> {
    (0..len).map(|i| ((i / 3) & 255) as u8).collect()
}

#[test]
fn simple_bytes() {
    for i in 0..10 {
        let values = (0..(1 << i) * 1024)
            .into_iter()
            .map(|i| (i & 255) as u8)
            .collect::<Vec<_>>();
        compress_and_uncompress(&values, 65536);
    }
}

#[test]
fn round_trip_around_the_tile_size() {
    for t in [1usize, 2, 3, 7, 64, 1000] {
        for len in [0, 1, t - 1, t, t + 1, 2 * t, 2 * t + 1] {
            compress_and_uncompress(&pattern(len), t);
        }
    }
}

#[test]
fn round_trip_of_many_tiles() {
    compress_and_uncompress(&pattern(1_000_003), 4096);
    compress_and_uncompress(&pattern(300_000), 65536);
}

#[test]
fn zeros_in_tiles_of_65536() {
    let input = vec![0u8; 150_000];
    let header = Header::new(input.len());
    assert_eq!(header.num_tiles(), 2);
    assert_eq!(header.last_tile_size(), 18_928);
    let result = compress(&input, 65536).unwrap();
    assert_eq!(result.tile_size, 65536);
    assert_eq!(result.tiles.len(), 3);
    assert_eq!(result.tiles[0].uncompressed_size, 65536);
    assert_eq!(result.tiles[1].uncompressed_size, 65536);
    assert_eq!(result.tiles[2].uncompressed_size, 18_928);
    let output = decompress((&result).into()).unwrap();
    assert_eq!(output.len(), 150_000);
    assert!(output.iter().all(|&byte| byte == 0));
    assert_eq!(output, input);
}

#[test]
fn result_records_every_payload() {
    let input = [7u8, 7, 7, 7, 8, 8, 9, 9, 9, 1];
    let result = compress(&input, 4).unwrap();
    assert_eq!(
        result,
        OwnedCompressionResult {
            bytes: vec![4, 7, 2, 8, 2, 9, 1, 9, 1, 1],
            tiles: vec![
                Tile { compressed_size: 2, uncompressed_size: 4 },
                Tile { compressed_size: 4, uncompressed_size: 4 },
                Tile { compressed_size: 4, uncompressed_size: 2 },
            ],
            tile_size: 4,
        }
    );
}

#[test]
fn compression_records_the_tiles_of_its_input() {
    for t in [1usize, 2, 3, 7, 64, 1000] {
        for len in [0, 1, t - 1, t, t + 1, 2 * t, 2 * t + 1, 5 * t + 3, 9 * t] {
            let result = compress(&pattern(len), t).unwrap();
            let count = (len + t - 1) / t;
            assert_eq!(result.tile_size as usize, t);
            assert_eq!(result.tiles.len(), count);
            for (i, tile) in result.tiles.iter().enumerate() {
                assert_eq!(tile.uncompressed_size as usize, t.min(len - i * t));
                if i + 1 < count {
                    assert_eq!(tile.uncompressed_size as usize, t);
                }
            }
            if let Some(last) = result.tiles.last() {
                assert!(1 <= last.uncompressed_size as usize && last.uncompressed_size as usize <= t);
                if len % t == 0 {
                    assert_eq!(last.uncompressed_size as usize, t);
                }
            }
            let sum: usize = result.tiles.iter().map(|tile| tile.uncompressed_size as usize).sum();
            assert_eq!(sum, len);
            let packed: usize = result.tiles.iter().map(|tile| tile.compressed_size as usize).sum();
            assert_eq!(packed, result.bytes.len());
        }
    }
}

#[test]
fn engines_that_agree_on_the_tiles_agree_on_the_result() {
    let input = pattern(3000);
    let mut used = Runs::new();
    for other in [pattern(10), vec![1u8; 5000], pattern(70_000)] {
        compress_with(&mut used, &other, 512, usize::MAX).unwrap();
    }
    let after = compress_with(&mut used, &input, 512, usize::MAX).unwrap();
    let fresh = compress_with(&mut Runs::new(), &input, 512, usize::MAX).unwrap();
    assert_eq!(after.bytes, fresh.bytes);
    assert_eq!(after.tiles, fresh.tiles);
    assert_eq!(after.tile_size, fresh.tile_size);
}

#[test]
fn no_bytes_compress_to_nothing() {
    let result = compress(&[], 65536).unwrap();
    assert_eq!(result, OwnedCompressionResult { bytes: vec![], tiles: vec![], tile_size: 65536 });
    assert_eq!(decompress((&result).into()), Ok(vec![]));
}

#[test]
fn tiles_are_asked_for_in_order() {
    let mut asked = Vec::new();
    let mut step = CompressJob::start(10, 4, 100);
    loop {
        match step {
            CompressStep::Tile { job, offset, length } => {
                asked.push((offset, length));
                step = job.advance(&[&[0u8; 3][..]]).unwrap();
            }
            CompressStep::Done(result) => {
                assert_eq!(result.bytes, vec![0u8; 9]);
                break;
            }
        }
    }
    assert_eq!(asked, vec![(0, 4), (4, 4), (8, 2)]);
}

#[test]
fn pages_of_a_tile_are_joined() {
    let input = pattern(1000);
    let whole = compress_with(&mut Runs::new(), &input, 100, usize::MAX).unwrap();
    for page_size in [1usize, 2, 3, 50] {
        let paged = compress_with(&mut Runs::new(), &input, 100, page_size).unwrap();
        assert_eq!(paged, whole);
    }
    let step = CompressJob::start(3, 8, 16);
    match step {
        CompressStep::Tile { job, .. } => {
            match job.advance(&[&[1u8, 2][..], &[][..], &[3u8][..], &[4u8, 5, 6][..]]) {
                Ok(CompressStep::Done(result)) => {
                    assert_eq!(result.bytes, vec![1, 2, 3, 4, 5, 6]);
                    assert_eq!(result.tiles, vec![Tile { compressed_size: 6, uncompressed_size: 3 }]);
                }
                _ => panic!("one tile makes the whole result"),
            }
        }
        CompressStep::Done(_) => panic!("three bytes make a tile"),
    }
}

#[test]
fn a_tile_without_pages_has_an_empty_payload() {
    match CompressJob::start(3, 8, 16) {
        CompressStep::Tile { job, .. } => match job.advance(&[]) {
            Ok(CompressStep::Done(result)) => {
                assert_eq!(result.bytes, Vec::<u8>::new());
                assert_eq!(result.tiles, vec![Tile { compressed_size: 0, uncompressed_size: 3 }]);
            }
            _ => panic!("one tile makes the whole result"),
        },
        CompressStep::Done(_) => panic!("three bytes make a tile"),
    }
}

#[test]
fn a_payload_over_the_bound_is_refused() {
    match CompressJob::start(10, 4, 5) {
        CompressStep::Tile { job, .. } => {
            assert!(matches!(job.advance(&[&[0u8; 6][..]]), Err(Error::BoundExceeded)));
        }
        CompressStep::Done(_) => panic!("ten bytes make tiles"),
    }
    match CompressJob::start(10, 4, 5) {
        CompressStep::Tile { job, .. } => {
            assert!(matches!(
                job.advance(&[&[0u8; 3][..], &[0u8; 3][..]]),
                Err(Error::BoundExceeded)
            ));
        }
        CompressStep::Done(_) => panic!("ten bytes make tiles"),
    }
    match CompressJob::start(10, 4, 5) {
        CompressStep::Tile { job, .. } => {
            assert!(matches!(job.advance(&[&[0u8; 5][..]]), Ok(CompressStep::Tile { .. })));
        }
        CompressStep::Done(_) => panic!("ten bytes make tiles"),
    }
}

#[test]
fn one_engine_for_two_inputs() {
    let first = pattern(5000);
    let second = vec![9u8; 70_000];
    let mut shared = Runs::new();
    let first_shared = compress_with(&mut shared, &first, 1024, usize::MAX).unwrap();
    let second_shared = compress_with(&mut shared, &second, 1024, usize::MAX).unwrap();
    assert_eq!(shared.calls, 5 + 69);
    assert_eq!(first_shared, compress(&first, 1024).unwrap());
    assert_eq!(second_shared, compress(&second, 1024).unwrap());
    assert_eq!(decompress((&first_shared).into()), Ok(first));
    assert_eq!(decompress((&second_shared).into()), Ok(second));
}

#[test]
fn borrowed_result_holds_what_the_owned_one_holds() {
    let owned = compress(&pattern(100), 16).unwrap();
    let borrowed = CompressionResult::from(&owned);
    assert_eq!(borrowed.bytes, &owned.bytes[..]);
    assert_eq!(borrowed.tiles, &owned.tiles[..]);
    assert_eq!(borrowed.tile_size, owned.tile_size);
    let made = CompressionResult::new(&owned.bytes, &owned.tiles, 16);
    assert_eq!(made.bytes, borrowed.bytes);
    assert_eq!(made.tiles, borrowed.tiles);
    assert_eq!(made.tile_size, 16);
}

#[test]
fn payloads_are_found_by_their_sizes() {
    let bytes = [1u8, 2, 3, 4, 5, 6];
    let tiles = [
        Tile { compressed_size: 1, uncompressed_size: 10 },
        Tile { compressed_size: 0, uncompressed_size: 20 },
        Tile { compressed_size: 5, uncompressed_size: 30 },
    ];
    let mut asked = Vec::new();
    let mut step = DecompressJob::start(CompressionResult::new(&bytes, &tiles, 30)).unwrap();
    loop {
        match step {
            DecompressStep::Tile { job, offset, compressed_len, uncompressed_len } => {
                asked.push((offset, compressed_len, uncompressed_len));
                let produced = vec![asked.len() as u8; uncompressed_len];
                step = job.advance(EngineStatus::Success, &produced).unwrap();
            }
            DecompressStep::Done(output) => {
                let mut expected = vec![1u8; 10];
                expected.extend_from_slice(&[2u8; 20]);
                expected.extend_from_slice(&[3u8; 30]);
                assert_eq!(output, expected);
                break;
            }
        }
    }
    assert_eq!(asked, vec![(0, 1, 10), (1, 0, 20), (1, 5, 30)]);
}

#[test]
fn a_tile_past_the_end_of_the_payload_is_refused() {
    let bytes = [0u8; 5];
    let tiles = [Tile { compressed_size: 6, uncompressed_size: 1 }];
    assert!(matches!(
        DecompressJob::start(CompressionResult::new(&bytes, &tiles, 4)),
        Err(Error::TruncatedPayload)
    ));
    let tiles = [
        Tile { compressed_size: 3, uncompressed_size: 1 },
        Tile { compressed_size: 3, uncompressed_size: 1 },
    ];
    match DecompressJob::start(CompressionResult::new(&bytes, &tiles, 4)) {
        Ok(DecompressStep::Tile { job, .. }) => {
            assert!(matches!(
                job.advance(EngineStatus::Success, &[0]),
                Err(Error::TruncatedPayload)
            ));
        }
        _ => panic!("the first tile lies within the payload"),
    }
}

#[test]
fn bytes_behind_the_last_tile_are_refused() {
    let bytes = [0u8; 5];
    assert!(matches!(
        DecompressJob::start(CompressionResult::new(&bytes, &[], 4)),
        Err(Error::TrailingData)
    ));
    let tiles = [Tile { compressed_size: 4, uncompressed_size: 1 }];
    match DecompressJob::start(CompressionResult::new(&bytes, &tiles, 4)) {
        Ok(DecompressStep::Tile { job, .. }) => {
            assert!(matches!(job.advance(EngineStatus::Success, &[0]), Err(Error::TrailingData)));
        }
        _ => panic!("the tile lies within the payload"),
    }
}

#[test]
fn every_answer_of_the_codec_but_success_is_an_error_of_its_own() {
    let bytes = [0u8; 4];
    let tiles = [Tile { compressed_size: 4, uncompressed_size: 2 }];
    let answers = [
        (EngineStatus::BadData, Error::BadData),
        (EngineStatus::ShortOutput, Error::ShortOutput),
        (EngineStatus::InsufficientSpace, Error::InsufficientSpace),
    ];
    for (status, error) in answers {
        match DecompressJob::start(CompressionResult::new(&bytes, &tiles, 4)) {
            Ok(DecompressStep::Tile { job, .. }) => match job.advance(status, &[0, 0]) {
                Err(e) => assert_eq!(e, error),
                Ok(_) => panic!("the codec failed"),
            },
            _ => panic!("the tile lies within the payload"),
        }
    }
}

#[test]
fn a_tile_of_another_size_than_recorded_is_corrupt() {
    let bytes = [0u8; 4];
    let tiles = [Tile { compressed_size: 4, uncompressed_size: 2 }];
    for produced in [&[][..], &[0u8][..], &[0u8, 0, 0][..]] {
        match DecompressJob::start(CompressionResult::new(&bytes, &tiles, 4)) {
            Ok(DecompressStep::Tile { job, .. }) => {
                assert!(matches!(
                    job.advance(EngineStatus::Success, produced),
                    Err(Error::CorruptTile)
                ));
            }
            _ => panic!("the tile lies within the payload"),
        }
    }
}

#[test]
fn a_damaged_payload_does_not_decompress() {
    let input = pattern(100);
    let mut result = compress(&input, 16).unwrap();
    result.bytes[0] = 0;
    assert_eq!(decompress((&result).into()), Err(Error::BadData));
    let mut result = compress(&input, 16).unwrap();
    result.bytes[0] += 1;
    assert_eq!(decompress((&result).into()), Err(Error::InsufficientSpace));
    let mut result = compress(&input, 16).unwrap();
    result.bytes[0] -= 1;
    assert_eq!(decompress((&result).into()), Err(Error::CorruptTile));
    let mut result = compress(&input, 16).unwrap();
    result.bytes.pop();
    assert_eq!(decompress((&result).into()), Err(Error::TruncatedPayload));
    let mut result = compress(&input, 16).unwrap();
    result.bytes.push(0);
    assert_eq!(decompress((&result).into()), Err(Error::TrailingData));
}
