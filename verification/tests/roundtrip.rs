//! Decompression undoes compression.
use quicklz::{compress, decompress, CompressionLevel, Decoder};

const LEVELS: [CompressionLevel; 2] = [CompressionLevel::Lvl1, CompressionLevel::Lvl3];

/// Bytes without a pattern.
fn noise(len: usize, mut seed: u32) -> Vec<u8> {
    let mut data = Vec::new();
    for _ in 0..len {
        seed = seed.wrapping_mul(1664525).wrapping_add(1013904223);
        data.push((seed >> 24) as u8);
    }
    data
}

fn check(data: &[u8]) {
    for level in LEVELS {
        let mut stream = compress(data, level);
        assert!(stream.len() <= data.len() + 400);
        assert_eq!(stream[0] & 0x40, 0x40);
        assert_eq!(stream[0] >> 2 & 3, level.as_u8());
        if data.len() < 216 {
            assert_eq!(stream[0] & 2, 0);
            assert_eq!(stream[1] as usize, stream.len());
            assert_eq!(stream[2] as usize, data.len());
        } else {
            assert_eq!(stream[0] & 2, 2);
            let total = u32::from_le_bytes([stream[1], stream[2], stream[3], stream[4]]);
            let size = u32::from_le_bytes([stream[5], stream[6], stream[7], stream[8]]);
            assert_eq!(total as usize, stream.len());
            assert_eq!(size as usize, data.len());
        }
        stream.extend_from_slice(&[1, 2, 3]);
        let mut r: &[u8] = &stream;
        let dec = decompress(&mut r, data.len() as u32).unwrap();
        assert!(dec == data);
        assert_eq!(r, &[1, 2, 3]);
    }
}

#[test]
fn short_data() {
    for len in 0..300 {
        check(&vec![0u8; len]);
        check(&vec![b'x'; len]);
        check(&noise(len, 1));
        let data: Vec<u8> = (0..len).map(|i| i as u8).collect();
        check(&data);
        let data: Vec<u8> = (0..len).map(|i| (i % 7) as u8).collect();
        check(&data);
    }
}

#[test]
fn long_data() {
    check(&noise(100_000, 2));
    check(&vec![0u8; 100_000]);
    let data: Vec<u8> = noise(100_000, 3).iter().map(|b| b & 3).collect();
    check(&data);
    let data: Vec<u8> = noise(50_000, 4).iter().map(|b| b & 15).collect();
    check(&data);
}

#[test]
fn far_references() {
    for distance in [30usize, 100, 600, 1100, 5_000, 20_000, 131_000, 131_100, 140_000] {
        for len in [3usize, 4, 10, 18, 19, 33, 34, 60, 255, 300] {
            let word = noise(len, 5);
            let mut data = word.clone();
            data.extend(noise(distance, 6));
            data.extend(&word);
            data.extend(noise(20, 7));
            check(&data);
        }
    }
}

#[test]
fn empty_stream() {
    assert_eq!(
        compress(&[], CompressionLevel::Lvl1),
        vec![0x45, 7, 0, 0, 0, 0, 0x80]
    );
    assert_eq!(
        compress(&[], CompressionLevel::Lvl3),
        vec![0x4d, 7, 0, 0, 0, 0, 0x80]
    );
    let mut r: &[u8] = &[0x44, 3, 0, 9];
    assert_eq!(decompress(&mut r, 0).unwrap(), vec![]);
    assert_eq!(r, &[9]);
}

#[test]
fn stored_data() {
    for len in [216usize, 230, 252, 253, 254, 255, 256, 1000] {
        let data = noise(len, 8);
        for level in LEVELS {
            let stream = compress(&data, level);
            assert_eq!(stream[0], 0x42 | level.as_u8() << 2);
            assert_eq!(stream.len(), len + 9);
            assert_eq!(&stream[9..], data.as_slice());
        }
    }
    let mut r: &[u8] = &[0x44, 6, 3, 7, 8, 9, 10];
    assert_eq!(decompress(&mut r, 3).unwrap(), vec![7, 8, 9]);
    assert_eq!(r, &[10]);
}

/// Each form of a reference of level 3.
#[test]
fn reference_forms() {
    // The distance and the length of a match, and how many bytes refer to it.
    for (distance, len, form) in [
        (63usize, 3usize, 1usize),
        (64, 3, 2),
        (0x3fff, 3, 2),
        (0x3ff, 18, 2),
        (0x400, 18, 3),
        (0x3ff, 33, 3),
        (0x3ff, 34, 4),
        (0x1_0000, 255, 4),
    ] {
        let word = noise(len, 9);
        let mut data = word.clone();
        let mut fill: Vec<u8> = Vec::new();
        while fill.len() + len < distance {
            fill.push((fill.len() % 5 * 7) as u8);
        }
        data.extend(&fill);
        assert_eq!(data.len(), distance);
        data.extend(&word);
        data.extend(noise(10, 10));
        let stream = compress(&data, CompressionLevel::Lvl3);
        let expected = match (form, len) {
            (1, _) => distance << 2,
            (2, 3) => distance << 2 | 1,
            (2, _) => distance << 6 | (len - 3) << 2 | 2,
            (3, _) => distance << 7 | (len - 2) << 2 | 3,
            _ => distance << 15 | (len - 3) << 7 | 3,
        };
        let bytes = expected.to_le_bytes();
        assert!(stream.windows(form).any(|w| w == &bytes[..form]));
        check(&data);
    }
}

#[test]
fn different_data_have_different_streams() {
    for level in LEVELS {
        let a = compress(b"the same but for one byte: a", level);
        let b = compress(b"the same but for one byte: b", level);
        assert_ne!(a, b);
    }
}

#[test]
fn decoder_in_pieces() {
    let data = noise(2_000, 11).iter().map(|b| b & 7).collect::<Vec<u8>>();
    for level in LEVELS {
        let stream = compress(&data, level);
        let mut decoder = Decoder::new(2_000);
        let mut pos = 0;
        loop {
            let n = decoder.needed();
            if n == 0 {
                break;
            }
            decoder.feed(&stream[pos..pos + n]).unwrap();
            pos += n;
        }
        assert_eq!(pos, stream.len());
        assert_eq!(decoder.finish(), data);
    }
}
