use gdeflate::{CompressionResult, Error, OwnedCompressionResult, Tile};

const TILE: u32 = 65536;

fn whole(compressed_size: u32) -> Tile {
    Tile { compressed_size, uncompressed_size: TILE }
}

#[test]
fn container_of_two_whole_tiles() {
    let bytes = [10u8, 11, 12, 20, 21];
    let tiles = [whole(3), whole(2)];
    let stream = CompressionResult::new(&bytes, &tiles, TILE).to_stream();
    assert_eq!(
        stream,
        vec![
            4, 251, 2, 0, 0, 0, 0, 0x40, // header
            3, 0, 0, 0, 2, 0, 0, 0, // size table
            10, 11, 12, 20, 21, // compressed tiles
        ]
    );
}

#[test]
fn container_of_nothing() {
    let stream = CompressionResult::new(&[], &[], TILE).to_stream();
    assert_eq!(stream, vec![4, 251, 0, 0, 0, 0, 0, 0x40]);
    assert_eq!(
        OwnedCompressionResult::from_stream(&stream),
        Ok(OwnedCompressionResult { bytes: vec![], tiles: vec![], tile_size: TILE })
    );
}

#[test]
fn size_table_entries_are_written_low_byte_first() {
    let tiles = [whole(0x0403_0201), whole(0xffff_fffe)];
    let stream = CompressionResult::new(&[], &tiles, TILE).to_stream();
    assert_eq!(&stream[8..], &[1, 2, 3, 4, 0xfe, 0xff, 0xff, 0xff]);
    let read = OwnedCompressionResult::from_stream(&stream).unwrap();
    assert_eq!(read.tiles, tiles.to_vec());
}

#[test]
fn container_of_whole_tiles_reads_back() {
    for count in [0usize, 1, 2, 3, 100] {
        let tiles: Vec<Tile> = (0..count).map(|i| whole(i as u32 % 7)).collect();
        let len: usize = tiles.iter().map(|tile| tile.compressed_size as usize).sum();
        let bytes: Vec<u8> = (0..len).map(|i| i as u8).collect();
        let stream = CompressionResult::new(&bytes, &tiles, TILE).to_stream();
        assert_eq!(stream.len(), 8 + 4 * count + len);
        assert_eq!(
            OwnedCompressionResult::from_stream(&stream),
            Ok(OwnedCompressionResult { bytes, tiles, tile_size: TILE })
        );
    }
}

#[test]
fn header_of_a_container_holds_the_uncompressed_length() {
    let tiles = [
        Tile { compressed_size: 1, uncompressed_size: 65536 },
        Tile { compressed_size: 1, uncompressed_size: 65536 },
        Tile { compressed_size: 1, uncompressed_size: 18_928 },
    ];
    let stream = CompressionResult::new(&[7, 8, 9], &tiles, TILE).to_stream();
    assert_eq!(&stream[..8], &[4, 251, 2, 0, 0x00, 0x00, 0x9f, 0x44]);
    assert_eq!(&stream[8..20], &[1, 0, 0, 0, 1, 0, 0, 0, 1, 0, 0, 0]);
    assert_eq!(&stream[20..], &[7, 8, 9]);
}

#[test]
fn header_of_a_container_takes_the_length_in_32_bits() {
    let tiles = vec![Tile { compressed_size: 0, uncompressed_size: 0xffff_0000 }; 3];
    let stream = CompressionResult::new(&[], &tiles, TILE).to_stream();
    assert_eq!(&stream[..8], &[4, 251, 0xfd, 0xff, 0, 0, 0, 0x40]);
}

#[test]
fn container_with_a_short_last_tile_reads_as_the_tiles_its_header_counts() {
    let tiles = [
        Tile { compressed_size: 1, uncompressed_size: 65536 },
        Tile { compressed_size: 1, uncompressed_size: 65536 },
        Tile { compressed_size: 1, uncompressed_size: 18_928 },
    ];
    let stream = CompressionResult::new(&[7, 8, 9], &tiles, TILE).to_stream();
    assert_eq!(
        OwnedCompressionResult::from_stream(&stream),
        Ok(OwnedCompressionResult {
            bytes: vec![1, 0, 0, 0, 7, 8, 9],
            tiles: vec![
                Tile { compressed_size: 1, uncompressed_size: 65536 },
                Tile { compressed_size: 1, uncompressed_size: 18_928 },
            ],
            tile_size: TILE,
        })
    );
}

#[test]
fn stream_is_read_by_its_header_and_table() {
    let stream = [
        4u8, 251, 3, 0, 0, 0x50, 0, 0x40, // three tiles, the last of five bytes
        1, 0, 0, 0, 0, 1, 0, 0, 2, 0, 0, 0, // size table
        9, 9, 9,
    ];
    assert_eq!(
        OwnedCompressionResult::from_stream(&stream),
        Ok(OwnedCompressionResult {
            bytes: vec![9, 9, 9],
            tiles: vec![
                Tile { compressed_size: 1, uncompressed_size: 65536 },
                Tile { compressed_size: 256, uncompressed_size: 65536 },
                Tile { compressed_size: 2, uncompressed_size: 5 },
            ],
            tile_size: TILE,
        })
    );
}

#[test]
fn stream_without_a_whole_header_is_truncated() {
    let good = [4u8, 251, 0, 0, 0, 0, 0, 0x40];
    for len in 0..8 {
        assert_eq!(OwnedCompressionResult::from_stream(&good[..len]), Err(Error::TruncatedHeader));
    }
    assert!(OwnedCompressionResult::from_stream(&good).is_ok());
}

#[test]
fn stream_with_another_head_is_invalid() {
    for head in [[5u8, 251], [4, 250], [4, 4], [0, 255], [251, 4]] {
        let stream = [head[0], head[1], 0, 0, 0, 0, 0, 0x40];
        assert_eq!(OwnedCompressionResult::from_stream(&stream), Err(Error::InvalidHeader));
    }
}

#[test]
fn stream_whose_header_describes_no_length_is_invalid() {
    let no_tile_to_cut = [4u8, 251, 0, 0, 0, 0x10, 0, 0x40];
    assert_eq!(OwnedCompressionResult::from_stream(&no_tile_to_cut), Err(Error::InvalidHeader));
    let too_long_a_last_tile = [4u8, 251, 2, 0, 0, 0x10, 0, 0x50, 0, 0, 0, 0, 0, 0, 0, 0];
    assert_eq!(
        OwnedCompressionResult::from_stream(&too_long_a_last_tile),
        Err(Error::InvalidHeader)
    );
}

#[test]
fn stream_that_ends_within_its_size_table_is_truncated() {
    let good = [4u8, 251, 2, 0, 0, 0, 0, 0x40, 1, 0, 0, 0, 2, 0, 0, 0];
    for len in 8..16 {
        assert_eq!(
            OwnedCompressionResult::from_stream(&good[..len]),
            Err(Error::TruncatedSizeTable)
        );
    }
    assert!(OwnedCompressionResult::from_stream(&good).is_ok());
}

#[test]
fn invalid_header_is_told_before_its_table_is_missed() {
    let stream = [5u8, 251, 2, 0, 0, 0, 0, 0x40];
    assert_eq!(OwnedCompressionResult::from_stream(&stream), Err(Error::InvalidHeader));
}
