//! The parts that the compressor and the decompressor are made of.
use quicklz::encoder::check_inefficient;
use quicklz::writer::{begin_group, write_control, write_header, Writer};
use quicklz::{
    copy_buffer_bytes, hash, is_eq, read_u24, update_hashtable, CompressionLevel, HASHTABLE_SIZE,
};

#[test]
fn level_numbers() {
    assert_eq!(CompressionLevel::Lvl1.as_u8(), 1);
    assert_eq!(CompressionLevel::Lvl3.as_u8(), 3);
    assert_ne!(CompressionLevel::Lvl1, CompressionLevel::Lvl3);
}

#[test]
fn numbers_of_three_bytes() {
    assert_eq!(read_u24(&[0x12, 0x34, 0x56, 0x78]), 0x563412);
    assert_eq!(read_u24(&[0xff, 0xff, 0xff]), 0xffffff);
}

#[test]
fn hashes() {
    assert_eq!(hash(0), 0);
    assert_eq!(hash(0x123456), 0x123 ^ 0x456);
    assert_eq!(hash(0xffffff), 0);
    assert_eq!(hash(0x000fff), 0xfff);
}

#[test]
fn copies() {
    let mut buf = vec![1, 2, 3, 4, 5];
    copy_buffer_bytes(&mut buf, 1, 3).unwrap();
    assert_eq!(buf, vec![1, 2, 3, 4, 5, 2, 3, 4]);
    let mut buf = vec![1, 2, 3];
    copy_buffer_bytes(&mut buf, 1, 7).unwrap();
    assert_eq!(buf, vec![1, 2, 3, 2, 3, 2, 3, 2, 3, 2]);
    let mut buf = vec![1, 2, 3];
    copy_buffer_bytes(&mut buf, 9, 0).unwrap();
    assert_eq!(buf, vec![1, 2, 3]);
    let e = copy_buffer_bytes(&mut buf, 3, 1).unwrap_err();
    assert_eq!(e.message(), "Invalid back reference in QuickLZ");
    assert_eq!(buf, vec![1, 2, 3]);
}

#[test]
fn tables() {
    let data = [1, 2, 3, 1, 2, 3, 4];
    let mut table = [9u32; HASHTABLE_SIZE];
    update_hashtable(&mut table, &data, 0, 5);
    assert_eq!(table[hash(0x030201) as usize], 3);
    assert_eq!(table[hash(0x010302) as usize], 1);
    assert_eq!(table[hash(0x040302) as usize], 4);
    assert_eq!(table.iter().filter(|x| **x != 9).count(), 4);
    update_hashtable(&mut table, &data, 3, 2);
    assert_eq!(table[hash(0x030201) as usize], 3);
}

#[test]
fn equal_elements() {
    assert!(is_eq::<u8>(&[]));
    assert!(is_eq(&[5]));
    assert!(is_eq(&[5, 5, 5]));
    assert!(!is_eq(&[5, 5, 6]));
    assert!(!is_eq(&[6, 5, 5]));
}

#[test]
fn headers() {
    let mut dest = vec![0; 3];
    write_header(&mut dest, 3, 26, 106, CompressionLevel::Lvl3, true);
    assert_eq!(dest, vec![77, 26, 106]);
    let mut dest = vec![0; 9];
    write_header(&mut dest, 9, 32, 106, CompressionLevel::Lvl3, true);
    assert_eq!(dest, vec![79, 32, 0, 0, 0, 106, 0, 0, 0]);
    let mut dest = vec![1, 2, 3, 4, 5];
    write_header(&mut dest, 3, 255, 255, CompressionLevel::Lvl1, false);
    assert_eq!(dest, vec![0x44, 255, 255, 4, 5]);
    let mut dest = vec![7; 10];
    write_header(&mut dest, 9, 0x01020304, 0xffff_ffff, CompressionLevel::Lvl1, false);
    assert_eq!(dest, vec![0x46, 4, 3, 2, 1, 255, 255, 255, 255, 7]);
    let mut dest = vec![0; 3];
    write_header(&mut dest, 3, 0x301, 0x402, CompressionLevel::Lvl1, true);
    assert_eq!(dest, vec![0x45, 1, 2]);
}

#[test]
fn control_words() {
    let mut dest = vec![9; 6];
    write_control(&mut dest, 1, 0x80000102);
    assert_eq!(dest, vec![9, 2, 1, 0, 0x80, 9]);
    let (mut control, mut control_pos) = (7, 2);
    begin_group(&mut control, &mut control_pos, &mut dest);
    assert_eq!(dest, vec![9, 2, 3, 0, 0, 0x80, 0, 0, 0, 0]);
    assert_eq!((control, control_pos), (1 << 31, 6));
}

#[test]
fn too_inefficient() {
    let (mut control, mut control_pos) = (1, 3);
    let mut dest = vec![0; 11];
    let data = [1, 2, 3, 4, 5];
    let level = CompressionLevel::Lvl3;
    assert!(check_inefficient(&mut control, 4, level, &mut control_pos, &mut dest, &data));
    assert_eq!(dest, vec![0x4c, 8, 5, 1, 2, 3, 4, 5]);
    assert_eq!((control, control_pos), (1, 3));
}

#[test]
fn inefficient_by_one_byte() {
    let data = [7; 128];
    let level = CompressionLevel::Lvl1;
    let (mut control, mut control_pos) = (1, 9);
    let mut dest = vec![0; 97];
    assert!(!check_inefficient(&mut control, 100, level, &mut control_pos, &mut dest, &data));
    assert_eq!(dest.len(), 101);
    assert_eq!(dest[9..13], [0, 0, 0, 0x80]);
    assert_eq!((control, control_pos), (1 << 31, 97));
    let (mut control, mut control_pos) = (1, 9);
    let mut dest = vec![0; 98];
    assert!(check_inefficient(&mut control, 100, level, &mut control_pos, &mut dest, &data));
    assert_eq!(dest[..3], [0x44, 131, 128]);
    assert_eq!(dest[3..], data);
}

#[test]
fn stored_headers() {
    let level = CompressionLevel::Lvl1;
    let data = [5; 215];
    let (mut control, mut control_pos) = (1, 3);
    let mut dest = vec![0; 300];
    assert!(check_inefficient(&mut control, 215, level, &mut control_pos, &mut dest, &data));
    assert_eq!(dest[..3], [0x44, 218, 215]);
    assert_eq!(dest[3..], data);
    let data = [5; 216];
    let mut dest = vec![0; 300];
    assert!(check_inefficient(&mut control, 216, level, &mut control_pos, &mut dest, &data));
    assert_eq!(dest[..9], [0x46, 225, 0, 0, 0, 216, 0, 0, 0]);
    assert_eq!(dest[9..], data);
}

#[test]
fn next_control_word() {
    let (mut control, mut control_pos) = (1, 3);
    let mut dest = vec![9; 8];
    let data = [0; 100];
    let level = CompressionLevel::Lvl1;
    assert!(!check_inefficient(&mut control, 31, level, &mut control_pos, &mut dest, &data));
    assert_eq!(dest, vec![9, 9, 9, 0, 0, 0, 0x80, 9, 0, 0, 0, 0]);
    assert_eq!((control, control_pos), (1 << 31, 8));
}

#[test]
fn open_group() {
    let (mut control, mut control_pos) = (0x4000_0002, 3);
    let mut dest = vec![9; 200];
    let data = [0; 100];
    let level = CompressionLevel::Lvl1;
    assert!(!check_inefficient(&mut control, 100, level, &mut control_pos, &mut dest, &data));
    assert_eq!(dest, vec![9; 200]);
    assert_eq!((control, control_pos), (0x4000_0002, 3));
}

#[test]
fn groups_of_tokens() {
    let mut w = Writer::new(CompressionLevel::Lvl1, 3);
    assert_eq!(w.dest, vec![0; 7]);
    w.push_reference(0x123, 5);
    for _ in 0..30 {
        assert!(!w.is_full());
        w.push_literal(8);
    }
    assert!(w.is_full());
    w.next_group();
    let mut expected = vec![0, 0, 0, 1, 0, 0, 0x80, 0x33, 0x12];
    expected.extend_from_slice(&[8; 30]);
    expected.extend_from_slice(&[0; 4]);
    assert_eq!(w.dest, expected);
    assert_eq!(w.control_pos, 39);
    w.push_literal(6);
    w.finish();
    expected[42] = 0x80;
    expected.push(6);
    assert_eq!(w.dest, expected);
}
