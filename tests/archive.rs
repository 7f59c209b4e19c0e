use mpq::crypto::{Cipher, HashType};
use mpq::header::{FLAG_COMPRESS_MULTI, FLAG_COMPRESS_PKWARE, FLAG_ENCRYPTED, FLAG_EXISTS};
use mpq::{Archive, MpqError};

const HASH_TABLE_SEED: u32 = 0xC3AF_3770;
const BLOCK_TABLE_SEED: u32 = 0xEC83_B3A3;

/// PKWare DCL stream: one 'A', then a copy of 511 bytes at distance one.
const SECTOR_512_A: [u8; 8] = [0x00, 0x04, 0x82, 0x02, 0xEE, 0x87, 0x80, 0x7F];
/// PKWare DCL stream: one 'B', then a copy of 99 bytes at distance one.
const SECTOR_100_B: [u8; 8] = [0x00, 0x04, 0x84, 0x82, 0xDB, 0x10, 0xF0, 0x0F];
/// PKWare DCL stream of "AIAIAIAIAIAIA".
const SECTOR_AI: [u8; 8] = [0x00, 0x04, 0x82, 0x24, 0x25, 0x8F, 0x80, 0x7F];

struct Stored {
    name: &'static str,
    flags: u32,
    size_unpacked: u32,
    data: Vec<u8>,
}

fn put32(v: &mut Vec<u8>, x: u32) {
    v.extend_from_slice(&x.to_le_bytes());
}

fn put16(v: &mut Vec<u8>, x: u16) {
    v.extend_from_slice(&x.to_le_bytes());
}

fn file_key(name: &str) -> u32 {
    let base = name.rsplit(|c| c == '/' || c == '\\').next().unwrap();
    Cipher::new().hash(base, HashType::FileKey)
}

/// Stored form of a compressed file: the sector-offset table, then the
/// sectors, each encrypted when `key` is given.
fn compressed(sectors: &[&[u8]], key: Option<u32>) -> Vec<u8> {
    let c = Cipher::new();
    let mut table = Vec::new();
    let mut at = 4 * (sectors.len() as u32 + 1);
    put32(&mut table, at);
    for s in sectors {
        at += s.len() as u32;
        put32(&mut table, at);
    }
    if let Some(k) = key {
        assert!(c.encrypt(&mut table, k.wrapping_sub(1)));
    }
    let mut out = table;
    for (i, s) in sectors.iter().enumerate() {
        let mut s = s.to_vec();
        if let Some(k) = key {
            assert!(c.encrypt(&mut s, k.wrapping_add(i as u32)));
        }
        out.extend_from_slice(&s);
    }
    out
}

/// An archive of `files` behind `prefix` bytes of other data, padded to the
/// next 512-byte boundary; tables follow the header, file data the tables.
fn build(prefix: usize, factor: u16, hash_count: u32, files: &[Stored]) -> Vec<u8> {
    let c = Cipher::new();
    let mut out = vec![0x5Au8; prefix];
    while out.len() % 512 != 0 {
        out.push(0);
    }
    let hash_offset = 32u32;
    let block_offset = hash_offset + 16 * hash_count;
    let mut data_at = block_offset + 16 * files.len() as u32;
    let mut slots = vec![(0xFFFF_FFFFu32, 0xFFFF_FFFFu32, 0xFFFF_FFFFu32); hash_count as usize];
    let mut blocks = Vec::new();
    for (i, f) in files.iter().enumerate() {
        let mut slot = (c.hash(f.name, HashType::TableOffset) & (hash_count - 1)) as usize;
        while slots[slot].2 != 0xFFFF_FFFF {
            slot = (slot + 1) % hash_count as usize;
        }
        slots[slot] = (c.hash(f.name, HashType::NameA), c.hash(f.name, HashType::NameB), i as u32);
        put32(&mut blocks, data_at);
        put32(&mut blocks, f.data.len() as u32);
        put32(&mut blocks, f.size_unpacked);
        put32(&mut blocks, f.flags);
        data_at += f.data.len() as u32;
    }
    let mut hashes = Vec::new();
    for (a, b, index) in slots {
        put32(&mut hashes, a);
        put32(&mut hashes, b);
        put16(&mut hashes, if index == 0xFFFF_FFFF { 0xFFFF } else { 0 });
        put16(&mut hashes, if index == 0xFFFF_FFFF { 0xFFFF } else { 0 });
        put32(&mut hashes, index);
    }
    assert!(c.encrypt(&mut hashes, HASH_TABLE_SEED));
    assert!(c.encrypt(&mut blocks, BLOCK_TABLE_SEED));
    out.extend_from_slice(b"MPQ\x1A");
    put32(&mut out, 32);
    put32(&mut out, data_at);
    put16(&mut out, 0);
    put16(&mut out, factor);
    put32(&mut out, hash_offset);
    put32(&mut out, block_offset);
    put32(&mut out, hash_count);
    put32(&mut out, files.len() as u32);
    out.extend_from_slice(&hashes);
    out.extend_from_slice(&blocks);
    for f in files {
        out.extend_from_slice(&f.data);
    }
    out
}

fn plain_file(name: &'static str, bytes: &[u8]) -> Stored {
    Stored { name, flags: FLAG_EXISTS, size_unpacked: bytes.len() as u32, data: bytes.to_vec() }
}

fn read_all(archive: &Archive, name: &str) -> Result<Vec<u8>, MpqError> {
    let file = archive.get_file(name)?;
    let mut bytes = vec![0u8; file.size()];
    let n = file.read(&mut bytes)?;
    assert_eq!(n, file.size());
    Ok(bytes)
}

#[test]
fn scenario_a_uncompressed_file() {
    let data = build(0, 3, 4, &[plain_file("data\\hello.txt", b"0123456789")]);
    let archive = Archive::open(data).unwrap();
    let file = archive.get_file("data\\hello.txt").unwrap();
    assert_eq!(file.size(), 10);
    let mut out = vec![0xEEu8; 12];
    assert_eq!(file.read(&mut out), Ok(10));
    assert_eq!(&out[..10], b"0123456789");
    assert_eq!(&out[10..], &[0xEE, 0xEE]);
}

#[test]
fn scenario_b_archive_after_prefix() {
    let data = build(600, 3, 4, &[plain_file("data\\hello.txt", b"0123456789")]);
    assert_eq!(&data[1024..1028], b"MPQ\x1A");
    let archive = Archive::open(data).unwrap();
    assert_eq!(read_all(&archive, "DATA\\HELLO.TXT").unwrap(), b"0123456789".to_vec());
}

#[test]
fn scenario_c_missing_file() {
    let data = build(0, 3, 4, &[plain_file("present.txt", b"abc")]);
    let archive = Archive::open(data).unwrap();
    assert_eq!(archive.get_file("absent.txt").err(), Some(MpqError::NotFound));
    assert!(!archive.has_file("absent.txt"));
}

#[test]
fn scenario_d_undersized_buffer() {
    let data = build(0, 3, 4, &[plain_file("ten.bin", b"0123456789")]);
    let archive = Archive::open(data).unwrap();
    let file = archive.get_file("ten.bin").unwrap();
    let mut out = vec![0x11u8; 9];
    assert_eq!(file.read(&mut out), Err(MpqError::BufferTooSmall));
    assert_eq!(out, vec![0x11u8; 9]);
}

#[test]
fn scenario_e_encrypted_compressed_two_sectors() {
    let name = "levels\\towndata\\sector.dun";
    let key = file_key(name);
    let stored = Stored {
        name,
        flags: FLAG_EXISTS | FLAG_ENCRYPTED | FLAG_COMPRESS_PKWARE,
        size_unpacked: 612,
        data: compressed(&[&SECTOR_512_A, &SECTOR_100_B], Some(key)),
    };
    let archive = Archive::open(build(0, 0, 8, &[stored])).unwrap();
    let bytes = read_all(&archive, name).unwrap();
    let mut expected = vec![b'A'; 512];
    expected.extend_from_slice(&[b'B'; 100]);
    assert_eq!(bytes, expected);
}

#[test]
fn encrypted_file_key_uses_last_path_component() {
    let name = "a/b\\deep.bin";
    let stored = Stored {
        name,
        flags: FLAG_EXISTS | FLAG_ENCRYPTED | FLAG_COMPRESS_PKWARE,
        size_unpacked: 13,
        data: compressed(&[&SECTOR_AI], Some(file_key("deep.bin"))),
    };
    let archive = Archive::open(build(0, 3, 4, &[stored])).unwrap();
    assert_eq!(read_all(&archive, name).unwrap(), b"AIAIAIAIAIAIA".to_vec());
}

#[test]
fn prefixed_archive_reads_like_unprefixed() {
    let name = "levels\\towndata\\sector.dun";
    let stored = || Stored {
        name,
        flags: FLAG_EXISTS | FLAG_ENCRYPTED | FLAG_COMPRESS_PKWARE,
        size_unpacked: 612,
        data: compressed(&[&SECTOR_512_A, &SECTOR_100_B], Some(file_key(name))),
    };
    let plain = Archive::open(build(0, 0, 8, &[stored()])).unwrap();
    let shifted = Archive::open(build(600, 0, 8, &[stored()])).unwrap();
    assert_eq!(read_all(&plain, name).unwrap(), read_all(&shifted, name).unwrap());
}

#[test]
fn failed_read_leaves_buffer_alone() {
    let stored = Stored {
        name: "long.bin",
        flags: FLAG_EXISTS | FLAG_COMPRESS_PKWARE,
        size_unpacked: 600,
        data: compressed(&[&SECTOR_512_A, &SECTOR_100_B], None),
    };
    let archive = Archive::open(build(0, 0, 4, &[stored])).unwrap();
    let file = archive.get_file("long.bin").unwrap();
    let mut first = vec![0x33u8; 700];
    let mut second = vec![0x33u8; 700];
    assert_eq!(file.read(&mut first), Err(MpqError::CorruptSector));
    assert_eq!(file.read(&mut second), Err(MpqError::CorruptSector));
    assert_eq!(first, vec![0x33u8; 700]);
    assert_eq!(first, second);
}

#[test]
fn has_file_is_repeatable() {
    let data = build(0, 3, 4, &[plain_file("one.txt", b"1"), plain_file("two.txt", b"22")]);
    let archive = Archive::open(data).unwrap();
    for _ in 0..3 {
        assert!(archive.has_file("one.txt"));
        assert!(archive.has_file("TWO.TXT"));
        assert!(!archive.has_file("three.txt"));
    }
    assert_eq!(read_all(&archive, "two.txt").unwrap(), b"22".to_vec());
}

#[test]
fn lookup_in_full_table_stops_after_one_lap() {
    let files = [
        plain_file("a.txt", b"a"),
        plain_file("b.txt", b"b"),
        plain_file("c.txt", b"c"),
        plain_file("d.txt", b"d"),
    ];
    let archive = Archive::open(build(0, 3, 4, &files)).unwrap();
    assert!(!archive.has_file("e.txt"));
    assert_eq!(archive.get_file("e.txt").err(), Some(MpqError::NotFound));
    assert_eq!(read_all(&archive, "c.txt").unwrap(), b"c".to_vec());
}

#[test]
fn open_rejects_hash_count_not_power_of_two() {
    let data = build(0, 3, 3, &[plain_file("x", b"x")]);
    assert_eq!(Archive::open(data).err(), Some(MpqError::CorruptIndex));
}

#[test]
fn open_rejects_truncated_table() {
    let mut data = build(0, 3, 4, &[plain_file("x", b"x")]);
    data.truncate(32 + 64 + 8);
    assert_eq!(Archive::open(data).err(), Some(MpqError::CorruptIndex));
}

#[test]
fn open_without_header() {
    assert_eq!(Archive::open(vec![0u8; 1000]).err(), Some(MpqError::HeaderNotFound));
    assert_eq!(Archive::open(vec![0u8; 16]).err(), Some(MpqError::HeaderNotFound));
    assert_eq!(Archive::open(Vec::new()).err(), Some(MpqError::HeaderNotFound));
}

#[test]
fn block_not_marked_existing() {
    let stored = Stored { name: "gone.txt", flags: 0, size_unpacked: 3, data: b"abc".to_vec() };
    let archive = Archive::open(build(0, 3, 4, &[stored])).unwrap();
    assert!(archive.has_file("gone.txt"));
    assert_eq!(archive.get_file("gone.txt").err(), Some(MpqError::FilePresentButMissing));
}

#[test]
fn encrypted_name_without_last_component() {
    let stored = Stored {
        name: "folder\\",
        flags: FLAG_EXISTS | FLAG_ENCRYPTED,
        size_unpacked: 0,
        data: Vec::new(),
    };
    let archive = Archive::open(build(0, 3, 4, &[stored])).unwrap();
    assert_eq!(archive.get_file("folder\\").err(), Some(MpqError::InvalidName));
}

#[test]
fn multi_compression_is_unsupported() {
    let stored = Stored {
        name: "multi.bin",
        flags: FLAG_EXISTS | FLAG_COMPRESS_MULTI,
        size_unpacked: 13,
        data: compressed(&[&SECTOR_AI], None),
    };
    let archive = Archive::open(build(0, 3, 4, &[stored])).unwrap();
    assert_eq!(read_all(&archive, "multi.bin").err(), Some(MpqError::UnsupportedCompression));
}

#[test]
fn bad_sector_stream_is_explode_error() {
    let stored = Stored {
        name: "bad.bin",
        flags: FLAG_EXISTS | FLAG_COMPRESS_PKWARE,
        size_unpacked: 13,
        data: compressed(&[&[0x07, 0x04, 0x00, 0x00]], None),
    };
    let archive = Archive::open(build(0, 3, 4, &[stored])).unwrap();
    assert_eq!(read_all(&archive, "bad.bin").err(), Some(MpqError::ExplodeError));
}

#[test]
fn sectors_longer_than_file_are_corrupt() {
    let stored = Stored {
        name: "long.bin",
        flags: FLAG_EXISTS | FLAG_COMPRESS_PKWARE,
        size_unpacked: 600,
        data: compressed(&[&SECTOR_512_A, &SECTOR_100_B], None),
    };
    let archive = Archive::open(build(0, 0, 4, &[stored])).unwrap();
    assert_eq!(read_all(&archive, "long.bin").err(), Some(MpqError::CorruptSector));
}

#[test]
fn sectors_shorter_than_file_are_corrupt() {
    let stored = Stored {
        name: "short.bin",
        flags: FLAG_EXISTS | FLAG_COMPRESS_PKWARE,
        size_unpacked: 20,
        data: compressed(&[&SECTOR_AI], None),
    };
    let archive = Archive::open(build(0, 3, 4, &[stored])).unwrap();
    assert_eq!(read_all(&archive, "short.bin").err(), Some(MpqError::CorruptSector));
}

#[test]
fn unaligned_encrypted_sector_is_corrupt() {
    let name = "odd.bin";
    let stored = Stored {
        name,
        flags: FLAG_EXISTS | FLAG_ENCRYPTED | FLAG_COMPRESS_PKWARE,
        size_unpacked: 13,
        data: {
            let c = Cipher::new();
            let mut table = Vec::new();
            put32(&mut table, 8);
            put32(&mut table, 13);
            assert!(c.encrypt(&mut table, file_key(name).wrapping_sub(1)));
            table.extend_from_slice(&[1, 2, 3, 4, 5]);
            table
        },
    };
    let archive = Archive::open(build(0, 3, 4, &[stored])).unwrap();
    assert_eq!(read_all(&archive, name).err(), Some(MpqError::CorruptSector));
}

#[test]
fn stored_file_past_end_is_io() {
    let mut data = build(0, 3, 4, &[plain_file("tail.bin", b"0123456789")]);
    data.truncate(data.len() - 1);
    let archive = Archive::open(data).unwrap();
    assert_eq!(read_all(&archive, "tail.bin").err(), Some(MpqError::Io));
}

#[test]
fn uncompressed_encrypted_file_is_not_decrypted() {
    let stored = Stored {
        name: "raw.bin",
        flags: FLAG_EXISTS | FLAG_ENCRYPTED,
        size_unpacked: 4,
        data: vec![1, 2, 3, 4],
    };
    let archive = Archive::open(build(0, 3, 4, &[stored])).unwrap();
    assert_eq!(read_all(&archive, "raw.bin").unwrap(), vec![1, 2, 3, 4]);
}

fn diablo_like_archive() -> Archive {
    let names = ["Data\\Square.CEL", "Levels\\TownData\\Town.TIL", "Levels\\TownData\\Sector1s.DUN"];
    let files: Vec<Stored> = names
        .iter()
        .map(|name| Stored {
            name,
            flags: FLAG_EXISTS | FLAG_ENCRYPTED | FLAG_COMPRESS_PKWARE,
            size_unpacked: 612,
            data: compressed(&[&SECTOR_512_A, &SECTOR_100_B], Some(file_key(name))),
        })
        .collect();
    Archive::open(build(0, 0, 16, &files)).unwrap()
}

fn open_file(filename: &str) -> Result<Vec<u8>, MpqError> {
    read_all(&diablo_like_archive(), filename)
}

#[test]
fn test_explode_cel() {
    open_file("Data\\Square.CEL").expect("Failed to open file");
}

#[test]
fn test_explode_lvl() {
    open_file("Levels\\TownData\\Town.TIL").expect("Failed to open file");
}

#[test]
fn test_explode_dun() {
    open_file("Levels\\TownData\\Sector1s.DUN").expect("Failed to open file");
}
