use std::borrow::Cow;

use zoxide::codec::{DecodeError, MAX_SIZE, VERSION};
use zoxide::dir::{Dir, DirList, RANK_ONE};

fn sample() -> DirList<'static> {
    DirList(vec![
        Dir { path: "/home/a".into(), rank: 3 * RANK_ONE, last_accessed: 17 },
        Dir { path: "/tmp/\u{e9}t\u{e9}".into(), rank: RANK_ONE / 2, last_accessed: u64::MAX },
        Dir { path: "".into(), rank: 0, last_accessed: 0 },
    ])
}

fn header(version: u32, count: u64) -> Vec<u8> {
    let mut bytes = version.to_le_bytes().to_vec();
    bytes.extend_from_slice(&count.to_le_bytes());
    bytes
}

fn entry(path: &[u8], rank: f64, last_accessed: u64) -> Vec<u8> {
    let mut bytes = (path.len() as u64).to_le_bytes().to_vec();
    bytes.extend_from_slice(path);
    bytes.extend_from_slice(&rank.to_le_bytes());
    bytes.extend_from_slice(&last_accessed.to_le_bytes());
    bytes
}

#[test]
fn zero_copy() {
    let dirs = DirList(vec![Dir { path: "/".into(), rank: 0, last_accessed: 0 }]);

    let bytes = dirs.to_bytes().unwrap();
    let dirs = DirList::from_bytes(&bytes).unwrap();

    for dir in dirs.iter() {
        assert!(matches!(dir.path, Cow::Borrowed(_)))
    }
}

#[test]
fn encodes_an_empty_list_as_version_and_count() {
    let bytes = DirList::new().to_bytes().unwrap();
    assert_eq!(bytes, vec![3, 0, 0, 0, 0, 0, 0, 0, 0, 0, 0, 0]);
}

#[test]
fn encodes_every_field_lowest_byte_first() {
    let dirs = DirList(vec![Dir { path: "/a".into(), rank: RANK_ONE, last_accessed: 10 }]);
    let bytes = dirs.to_bytes().unwrap();
    let expected: Vec<u8> = vec![
        3, 0, 0, 0, // version
        1, 0, 0, 0, 0, 0, 0, 0, // entries
        2, 0, 0, 0, 0, 0, 0, 0, // bytes of the path
        47, 97, // path
        0, 0, 0, 0, 0, 0, 240, 63, // rank: one visit, as a double
        10, 0, 0, 0, 0, 0, 0, 0, // last visit
    ];
    assert_eq!(bytes, expected);
    let dirs = DirList(vec![Dir { path: "/a".into(), rank: 3 * RANK_ONE / 2, last_accessed: 0x0a0b0c }]);
    let bytes = dirs.to_bytes().unwrap();
    assert_eq!(bytes[22..30], 1.5f64.to_le_bytes());
    assert_eq!(bytes[30..38], [0x0c, 0x0b, 0x0a, 0, 0, 0, 0, 0]);
}

#[test]
fn buffer_has_the_exact_size() {
    let bytes = sample().to_bytes().unwrap();
    assert_eq!(bytes.len(), 4 + 8 + (24 + 7) + (24 + 10) + 24);
    assert_eq!(bytes.capacity(), bytes.len());
}

#[test]
fn decoding_undoes_encoding() {
    let dirs = sample();
    let bytes = dirs.to_bytes().unwrap();
    let back = DirList::from_bytes(&bytes).unwrap();
    assert_eq!(back.len(), dirs.len());
    for (one, other) in dirs.iter().zip(back.iter()) {
        assert_eq!(one.path, other.path);
        assert_eq!(one.rank, other.rank);
        assert_eq!(one.last_accessed, other.last_accessed);
    }
}

#[test]
fn encoding_undoes_decoding() {
    let mut bytes = header(VERSION, 2);
    bytes.extend(entry(b"/x", 5.0, 6));
    bytes.extend(entry(b"/y/z", 7.0, 8));
    let dirs = DirList::from_bytes(&bytes).unwrap();
    assert_eq!(dirs.len(), 2);
    assert_eq!(dirs[0].path, "/x");
    assert_eq!(dirs[0].rank, 5 * RANK_ONE);
    assert_eq!(dirs[0].last_accessed, 6);
    assert_eq!(dirs[1].path, "/y/z");
    assert_eq!(dirs[1].rank, 7 * RANK_ONE);
    assert_eq!(dirs[1].last_accessed, 8);
    assert_eq!(dirs.to_bytes().unwrap(), bytes);
}

#[test]
fn refuses_bytes_shorter_than_the_version() {
    let full = sample().to_bytes().unwrap();
    for len in 0..4 {
        assert_eq!(DirList::from_bytes(&full[..len]).unwrap_err(), DecodeError::Corrupted);
    }
}

#[test]
fn refuses_another_version() {
    let mut bytes = sample().to_bytes().unwrap();
    bytes[0] = 4;
    assert_eq!(
        DirList::from_bytes(&bytes).unwrap_err(),
        DecodeError::UnsupportedVersion { found: 4, supported: 3 }
    );
    bytes[0] = 3;
    bytes[3] = 1;
    assert_eq!(
        DirList::from_bytes(&bytes).unwrap_err(),
        DecodeError::UnsupportedVersion { found: 0x0100_0003, supported: VERSION }
    );
}

#[test]
fn another_version_is_told_before_anything_else() {
    let bytes = 2u32.to_le_bytes();
    assert_eq!(
        DirList::from_bytes(&bytes).unwrap_err(),
        DecodeError::UnsupportedVersion { found: 2, supported: 3 }
    );
    let mut long = vec![0u8; MAX_SIZE + 1];
    long[0] = 9;
    assert_eq!(
        DirList::from_bytes(&long).unwrap_err(),
        DecodeError::UnsupportedVersion { found: 9, supported: 3 }
    );
}

#[test]
fn refuses_more_bytes_than_the_limit() {
    let mut long = vec![0u8; MAX_SIZE + 1];
    long[0] = 3;
    assert_eq!(DirList::from_bytes(&long).unwrap_err(), DecodeError::TooLarge);
}

#[test]
fn decodes_bytes_at_the_limit() {
    let path = vec![b'a'; MAX_SIZE - 12 - 24];
    let mut bytes = header(VERSION, 1);
    bytes.extend(entry(&path, 1.0, 2));
    assert_eq!(bytes.len(), MAX_SIZE);
    let dirs = DirList::from_bytes(&bytes).unwrap();
    assert_eq!(dirs.len(), 1);
    assert_eq!(dirs[0].path.len(), MAX_SIZE - 36);
}

#[test]
fn refuses_a_missing_count() {
    let bytes = header(VERSION, 0);
    for len in 4..12 {
        assert_eq!(DirList::from_bytes(&bytes[..len]).unwrap_err(), DecodeError::Corrupted);
    }
    assert_eq!(DirList::from_bytes(&bytes).unwrap().len(), 0);
}

#[test]
fn refuses_every_cut_of_a_stored_list() {
    let bytes = sample().to_bytes().unwrap();
    for len in 4..bytes.len() {
        assert_eq!(DirList::from_bytes(&bytes[..len]).unwrap_err(), DecodeError::Corrupted);
    }
}

#[test]
fn refuses_bytes_after_the_last_entry() {
    let mut bytes = sample().to_bytes().unwrap();
    bytes.push(0);
    assert_eq!(DirList::from_bytes(&bytes).unwrap_err(), DecodeError::Corrupted);
}

#[test]
fn refuses_a_count_that_the_entries_do_not_meet() {
    let mut bytes = header(VERSION, 3);
    bytes.extend(entry(b"/x", 5.0, 6));
    bytes.extend(entry(b"/y", 7.0, 8));
    assert_eq!(DirList::from_bytes(&bytes).unwrap_err(), DecodeError::Corrupted);
    let mut bytes = header(VERSION, 1);
    bytes.extend(entry(b"/x", 5.0, 6));
    bytes.extend(entry(b"/y", 7.0, 8));
    assert_eq!(DirList::from_bytes(&bytes).unwrap_err(), DecodeError::Corrupted);
    let bytes = header(VERSION, u64::MAX);
    assert_eq!(DirList::from_bytes(&bytes).unwrap_err(), DecodeError::Corrupted);
}

#[test]
fn refuses_a_path_longer_than_the_rest() {
    let mut bytes = header(VERSION, 1);
    bytes.extend_from_slice(&u64::MAX.to_le_bytes());
    bytes.extend_from_slice(&[b'a'; 40]);
    assert_eq!(DirList::from_bytes(&bytes).unwrap_err(), DecodeError::Corrupted);
}

#[test]
fn refuses_a_path_that_is_not_utf8() {
    let mut bytes = header(VERSION, 1);
    bytes.extend(entry(&[b'/', 0xff, b'a'], 1.0, 2));
    assert_eq!(DirList::from_bytes(&bytes).unwrap_err(), DecodeError::Corrupted);
    let mut bytes = header(VERSION, 1);
    bytes.extend(entry(&[b'/', 0xc3], 1.0, 2));
    assert_eq!(DirList::from_bytes(&bytes).unwrap_err(), DecodeError::Corrupted);
}

#[test]
fn keeps_entries_with_the_same_path() {
    let mut bytes = header(VERSION, 2);
    bytes.extend(entry(b"/x", 5.0, 6));
    bytes.extend(entry(b"/x", 7.0, 8));
    let dirs = DirList::from_bytes(&bytes).unwrap();
    assert_eq!(dirs.len(), 2);
    assert_eq!(dirs[1].rank, 7 * RANK_ONE);
}

#[test]
fn reads_the_ranks_of_doubles() {
    let ranks = [0.0, 1.0, 0.5, 0.25, 2.75, 10_000.0, 1e-7, 123_456.789, -1.0, f64::NAN, f64::INFINITY];
    let mut bytes = header(VERSION, ranks.len() as u64);
    for rank in ranks {
        bytes.extend(entry(b"/p", rank, 1));
    }
    let dirs = DirList::from_bytes(&bytes).unwrap();
    let read: Vec<u64> = dirs.iter().map(|dir| dir.rank).collect();
    let expected = vec![
        0,
        RANK_ONE,
        RANK_ONE / 2,
        RANK_ONE / 4,
        2 * RANK_ONE + 3 * RANK_ONE / 4,
        10_000 * RANK_ONE,
        0,
        129_453_825_982,
        0,
        0,
        u64::MAX,
    ];
    assert_eq!(read, expected);
}

#[test]
fn writes_the_ranks_as_doubles() {
    let ranks = [0, 1, RANK_ONE / 2, RANK_ONE, 3 * RANK_ONE, 10_000 * RANK_ONE + 17, (1 << 53) - 1];
    let dirs = DirList(ranks.iter().map(|rank| Dir { path: "/p".into(), rank: *rank, last_accessed: 1 }).collect());
    let bytes = dirs.to_bytes().unwrap();
    for (i, rank) in ranks.iter().enumerate() {
        let at = 12 + i * 26 + 10;
        let double = *rank as f64 / RANK_ONE as f64;
        assert_eq!(bytes[at..at + 8], double.to_le_bytes());
    }
    let back = DirList::from_bytes(&bytes).unwrap();
    assert_eq!(back.iter().map(|dir| dir.rank).collect::<Vec<_>>(), ranks.to_vec());
}

#[test]
fn a_rank_with_too_many_digits_is_rounded_towards_zero() {
    let dirs = DirList(vec![
        Dir { path: "/p".into(), rank: (1 << 53) + 1, last_accessed: 1 },
        Dir { path: "/q".into(), rank: u64::MAX, last_accessed: 1 },
    ]);
    let bytes = dirs.to_bytes().unwrap();
    let back = DirList::from_bytes(&bytes).unwrap();
    assert_eq!(back[0].rank, 1 << 53);
    assert_eq!(back[1].rank, u64::MAX - 2_047);
}

#[test]
fn a_list_that_was_read_is_written_and_read_as_the_same() {
    let ranks = [0.0, 1.0, 0.3, 2.75, 123_456.789, 1e-7, 1e13, 17_592_186_044_415.998, 3e12];
    let mut bytes = header(VERSION, ranks.len() as u64);
    for rank in ranks {
        bytes.extend(entry(b"/p", rank, 1));
    }
    let read = DirList::from_bytes(&bytes).unwrap();
    let written = read.to_bytes().unwrap();
    let again = DirList::from_bytes(&written).unwrap();
    let first: Vec<u64> = read.iter().map(|dir| dir.rank).collect();
    let second: Vec<u64> = again.iter().map(|dir| dir.rank).collect();
    assert_eq!(first, second);
    assert_eq!(again.to_bytes().unwrap(), written);
}

#[test]
fn the_highest_rank_is_the_one_that_does_not_come_back() {
    let mut bytes = header(VERSION, 1);
    bytes.extend(entry(b"/p", f64::INFINITY, 1));
    let read = DirList::from_bytes(&bytes).unwrap();
    assert_eq!(read[0].rank, u64::MAX);
    let written = read.to_bytes().unwrap();
    let again = DirList::from_bytes(&written).unwrap();
    assert_eq!(again[0].rank, u64::MAX - 2_047);
}
