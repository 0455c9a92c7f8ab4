use gdeflate::{CompressionLevel, Error};

#[test]
fn creation_failures_say_what_failed() {
    assert_eq!(Error::CompressorCreationFailed.message(), "Failed to create compressor");
    assert_eq!(Error::DecompressorCreationFailed.message(), "Failed to create decompressor");
}

#[test]
fn every_error_has_words_of_its_own() {
    let all = [
        Error::CompressorCreationFailed,
        Error::DecompressorCreationFailed,
        Error::TruncatedHeader,
        Error::InvalidHeader,
        Error::TruncatedSizeTable,
        Error::TruncatedPayload,
        Error::TrailingData,
        Error::IndexOutOfRange,
        Error::BoundExceeded,
        Error::CorruptTile,
        Error::BadData,
        Error::ShortOutput,
        Error::InsufficientSpace,
    ];
    for (i, a) in all.iter().enumerate() {
        assert!(!a.message().is_empty());
        for b in &all[i + 1..] {
            assert_ne!(a.message(), b.message());
        }
    }
}

#[test]
fn levels_are_numbered_from_0_to_12() {
    let levels = [
        CompressionLevel::Level0,
        CompressionLevel::Level1,
        CompressionLevel::Level2,
        CompressionLevel::Level3,
        CompressionLevel::Level4,
        CompressionLevel::Level5,
        CompressionLevel::Level6,
        CompressionLevel::Level7,
        CompressionLevel::Level8,
        CompressionLevel::Level9,
        CompressionLevel::Level10,
        CompressionLevel::Level11,
        CompressionLevel::Level12,
    ];
    for (number, level) in levels.iter().enumerate() {
        assert_eq!(level.value(), number as i32);
    }
}
