//! Inputs that are refused.
use quicklz::{compress, decompress, CompressionLevel, Error, IoError};

fn refused(data: &[u8], max_size: u32) -> String {
    let mut r: &[u8] = data;
    decompress(&mut r, max_size).unwrap_err().message()
}

#[test]
fn unsupported_levels() {
    for flags in [0x40u8, 0x41, 0x48, 0x49, 0x4b] {
        let data = [flags, 3, 0];
        let mut r: &[u8] = &data;
        assert!(matches!(decompress(&mut r, 1024), Err(Error::UnsupportedLevel)));
        assert_eq!(r, &[3, 0]);
    }
    assert_eq!(
        refused(&[0x48], 1024),
        "Unsupported QuickLZ level, this library only supports level 1 and 3"
    );
}

#[test]
fn size_limit() {
    let stream = compress(&[7u8; 300], CompressionLevel::Lvl1);
    let mut r: &[u8] = &stream;
    match decompress(&mut r, 299) {
        Err(Error::SizeLimitExceeded { dec, max }) => {
            assert_eq!(dec, 300);
            assert_eq!(max, 299);
        }
        _ => panic!("the data are too large"),
    }
    assert_eq!(
        refused(&stream, 0),
        "Maximum uncompressed size exceeded: 300/0"
    );
    let mut r: &[u8] = &stream;
    assert_eq!(decompress(&mut r, 300).unwrap(), vec![7u8; 300]);
}

#[test]
fn input_ends_too_early() {
    let mut r: &[u8] = &[];
    assert!(matches!(
        decompress(&mut r, 10),
        Err(Error::Io(IoError::UnexpectedEof))
    ));
    let data: Vec<u8> = (0..400u32).map(|i| (i * i / 7) as u8).collect();
    for level in [CompressionLevel::Lvl1, CompressionLevel::Lvl3] {
        let stream = compress(&data, level);
        for n in 0..stream.len() {
            let mut r: &[u8] = &stream[..n];
            let e = decompress(&mut r, 400).unwrap_err();
            assert!(matches!(e, Error::Io(IoError::UnexpectedEof)));
            assert_eq!(e.message(), "failed to fill whole buffer");
        }
    }
}

#[test]
fn compressed_size_below_header() {
    assert_eq!(refused(&[0x45, 2, 5], 1024), "Invalid compressed size: 2");
    assert_eq!(
        refused(&[0x47, 8, 0, 0, 0, 5, 0, 0, 0], 1024),
        "Invalid compressed size: 8"
    );
}

#[test]
fn stored_sizes_differ() {
    assert_eq!(
        refused(&[0x44, 10, 5, 1, 2, 3, 4, 5], 1024),
        "Compressed and uncompressed size of uncompressed data do not match (7 != 5)"
    );
}

#[test]
fn reference_too_short() {
    assert_eq!(
        refused(&[0x45, 10, 20, 1, 0, 0, 0x80, 0, 0, 2], 1024),
        "Too small length for QuickLZ reference (2)"
    );
}

#[test]
fn reference_too_long() {
    assert_eq!(
        refused(&[0x45, 10, 20, 1, 0, 0, 0x80, 0, 0, 21], 1024),
        "Decompressed size exceeded (20)"
    );
    assert_eq!(
        refused(&[0x4d, 12, 20, 6, 0, 0, 0x80, 9, 0b0111_1110, 0, 0b0111_1110, 0], 1024),
        "Decompressed size exceeded (20)"
    );
    assert_eq!(
        refused(&[0x4d, 10, 4, 1, 0, 0, 0x80, 0b0000_1010, 0], 1024),
        "Decompressed size exceeded (4)"
    );
}

#[test]
fn reference_to_nothing() {
    assert_eq!(
        refused(&[0x45, 10, 20, 1, 0, 0, 0x80, 1, 0], 1024),
        "Invalid back reference in QuickLZ"
    );
    assert_eq!(
        refused(&[0x4d, 10, 20, 1, 0, 0, 0x80, 0], 1024),
        "Invalid back reference in QuickLZ"
    );
    assert_eq!(
        refused(&[0x4d, 10, 20, 1, 0, 0, 0x80, 4], 1024),
        "Too big offset in QuickLZ reference"
    );
}
