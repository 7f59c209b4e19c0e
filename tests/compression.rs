use mpq::compression::{copy_into, decompress_into, explode_into};
use mpq::MpqError;

#[test]
fn explode_into_decodes_example_stream() {
    let data = [0x00u8, 0x04, 0x82, 0x24, 0x25, 0x8F, 0x80, 0x7F];
    let mut out = vec![0u8; 16];
    assert_eq!(explode_into(&data, &mut out), Ok(13));
    assert_eq!(&out[..13], b"AIAIAIAIAIAIA");
    assert_eq!(&out[13..], &[0, 0, 0]);
}

#[test]
fn explode_into_small_buffer_is_corrupt() {
    let data = [0x00u8, 0x04, 0x82, 0x24, 0x25, 0x8F, 0x80, 0x7F];
    let mut out = vec![0u8; 12];
    assert_eq!(explode_into(&data, &mut out), Err(MpqError::CorruptSector));
    assert_eq!(out, vec![0u8; 12]);
    let mut exact = vec![0u8; 13];
    assert_eq!(explode_into(&data, &mut exact), Ok(13));
    assert_eq!(exact, b"AIAIAIAIAIAIA".to_vec());
}

#[test]
fn explode_into_rejects_bad_stream() {
    let mut out = vec![9u8; 4];
    assert_eq!(explode_into(&[0x02, 0x04, 0x00], &mut out), Err(MpqError::ExplodeError));
    assert_eq!(explode_into(&[], &mut out), Err(MpqError::ExplodeError));
    assert_eq!(out, vec![9u8; 4]);
}

#[test]
fn decompress_into_is_unsupported() {
    let mut out = vec![1u8; 3];
    assert_eq!(decompress_into(&[0x08, 1, 2], &mut out), Err(MpqError::UnsupportedCompression));
    assert_eq!(out, vec![1u8; 3]);
}

#[test]
fn copy_into_copies_what_fits() {
    let mut out = vec![0u8; 3];
    assert_eq!(copy_into(&[1, 2, 3, 4, 5], &mut out), Ok(5));
    assert_eq!(out, vec![1, 2, 3]);
    let mut wide = vec![0u8; 6];
    assert_eq!(copy_into(&[7, 8], &mut wide), Ok(2));
    assert_eq!(wide, vec![7, 8, 0, 0, 0, 0]);
}
