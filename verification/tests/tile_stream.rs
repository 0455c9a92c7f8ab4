use gdeflate::tile_stream::TileStream;

#[test]
fn tile_stream_of_150000_bytes() {
    let stream = TileStream::new(150_000);
    assert!(stream.valid());
    assert_eq!(stream.last_tile_size(), 18_928);
    assert_eq!(stream.uncompressed_size(), 84_464);
}

#[test]
fn tile_stream_of_whole_tiles() {
    for k in [0usize, 1, 2, 65535] {
        let stream = TileStream::new(k * 65536);
        assert!(stream.valid());
        assert_eq!(stream.last_tile_size(), 0);
        assert_eq!(stream.uncompressed_size(), k * 65536);
    }
}

#[test]
fn tile_streams_of_equal_lengths_are_equal() {
    assert_eq!(TileStream::new(70_000), TileStream::new(70_000));
    assert_ne!(TileStream::new(70_000), TileStream::new(70_001));
}
