use mod_manager::envelope::{block_complete_exec, compress_file, decompress_file};
use mod_manager::error::SettingsError;
use mod_manager::ext::{read_str32, read_str64, write_str32, write_str64, ByteVec, Endianness};

#[test]
fn compress() {
    let s = "\u{fff4}\u{2000}\u{fff4}⁀ࠀ\0\0\0\0".as_bytes();
    let buffer = compress_file(s).expect("Saving must work");
    let len = buffer.len();
    let decompressed = decompress_file(&buffer, len).expect("Loading must work");
    assert_eq!(s, decompressed.as_slice());
}

#[test]
fn envelope_round_trip_short_input_is_stored() {
    let s = b"abc";
    let out = compress_file(s).unwrap();
    assert_eq!(out, vec![3, 0, 0, 0, 3, 0, 0, 0, b'a', b'b', b'c']);
    assert_eq!(decompress_file(&out, out.len()).unwrap(), s.to_vec());
}

#[test]
fn envelope_round_trip_empty() {
    let out = compress_file(&[]).unwrap();
    assert_eq!(out, vec![0, 0, 0, 0, 0, 0, 0, 0]);
    assert_eq!(decompress_file(&out, out.len()).unwrap(), Vec::<u8>::new());
}

#[test]
fn envelope_compresses_repetitive_input() {
    let s = vec![7u8; 1000];
    let out = compress_file(&s).unwrap();
    assert!(out.len() < s.len());
    let stored = u32::from_le_bytes([out[0], out[1], out[2], out[3]]) as usize;
    let original = u32::from_le_bytes([out[4], out[5], out[6], out[7]]) as usize;
    assert_eq!(stored + 8, out.len());
    assert_eq!(original, 1000);
    assert_eq!(decompress_file(&out, out.len()).unwrap(), s);
}

#[test]
fn envelope_round_trip_incompressible() {
    let mut x: u32 = 12345;
    let mut s = Vec::new();
    for _ in 0..300 {
        x = x.wrapping_mul(1103515245).wrapping_add(12345);
        s.push((x >> 16) as u8);
    }
    let out = compress_file(&s).unwrap();
    assert_eq!(decompress_file(&out, out.len()).unwrap(), s);
}

#[test]
fn envelope_round_trip_many_lengths() {
    for n in 0..80usize {
        let s: Vec<u8> = (0..n).map(|i| (i % 5) as u8).collect();
        let out = compress_file(&s).unwrap();
        assert_eq!(decompress_file(&out, out.len()).unwrap(), s, "length {n}");
    }
}

#[test]
fn envelope_corrupt_header() {
    let out = compress_file(b"hello").unwrap();
    let r = decompress_file(&out, out.len() + 1);
    assert_eq!(r, Err(SettingsError::CorruptHeader { declared: 13, actual: 14 }));
}

#[test]
fn envelope_short_read() {
    assert_eq!(decompress_file(&[1, 0], 9), Err(SettingsError::ShortRead));
    let data = [4u8, 0, 0, 0, 4, 0, 0, 0, 1, 2];
    assert_eq!(decompress_file(&data, 12), Err(SettingsError::ShortRead));
}

#[test]
fn envelope_bad_block_fails() {
    // Stored size 2 differs from original size 50: a compressed block that is garbage.
    let data = [2u8, 0, 0, 0, 50, 0, 0, 0, 0xff, 0xff];
    assert_eq!(decompress_file(&data, 10), Err(SettingsError::DecompressionFailed));
    let empty_block = [0u8, 0, 0, 0, 5, 0, 0, 0];
    assert_eq!(decompress_file(&empty_block, 8), Err(SettingsError::DecompressionFailed));
}

#[test]
fn byte_vec_reads_front_and_appends() {
    let mut b = ByteVec(Vec::new());
    assert_eq!(b.write(&[1, 2, 3, 4]), 4);
    b.flush();
    assert_eq!(b.read(3), vec![1, 2, 3]);
    assert_eq!(b.read(10), vec![4]);
    assert_eq!(b.read(1), Vec::<u8>::new());
}

#[test]
fn string_round_trip_with_length_prefix() {
    for s in ["", "abc", "ünïcödé ✓", "\0\u{1}𐀀"] {
        let mut out = Vec::new();
        write_str64(&mut out, s, Endianness::Little);
        assert_eq!(&out[0..8], &(s.len() as u64).to_le_bytes());
        let (back, end) = read_str64(&out, 0, Endianness::Little).unwrap();
        assert_eq!(back, s);
        assert_eq!(end, out.len());

        let mut out = Vec::new();
        write_str32(&mut out, s, Endianness::Big).unwrap();
        assert_eq!(&out[0..4], &(s.len() as u32).to_be_bytes());
        let (back, end) = read_str32(&out, 0, Endianness::Big).unwrap();
        assert_eq!(back, s);
        assert_eq!(end, out.len());
    }
}

#[test]
fn envelope_incomplete_match_is_refused() {
    // A literal 'A', then a match instruction whose distance byte is missing.
    let data = [3u8, 0, 0, 0, 4, 0, 0, 0, 0x00, 0x41, 0x20];
    assert_eq!(decompress_file(&data, data.len()), Err(SettingsError::DecompressionFailed));
}

#[test]
fn block_completeness() {
    // Level 1: literal of one byte, then a match with its distance byte.
    assert!(block_complete_exec(&[0x00, 0x41, 0x20, 0x00]));
    // The same match without its distance byte.
    assert!(!block_complete_exec(&[0x00, 0x41, 0x20]));
    // A long match needs an extra length byte and a distance byte.
    assert!(!block_complete_exec(&[0x00, 0x41, 0xe0, 0x05]));
    assert!(block_complete_exec(&[0x00, 0x41, 0xe0, 0x05, 0x00]));
    // Level 2: a run of 255 length bytes must end inside the block.
    assert!(!block_complete_exec(&[0x20, 0x41, 0xe0, 0xff, 0xff]));
    assert!(block_complete_exec(&[0x20, 0x41, 0xe0, 0xff, 0x01, 0x00]));
    // Other levels are refused after the first byte.
    assert!(block_complete_exec(&[0xff]));
    assert!(!block_complete_exec(&[]));
    // A literal run longer than the block is refused before it is read.
    assert!(block_complete_exec(&[0x05, 0x41]));
}
