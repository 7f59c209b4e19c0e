use mpq::crypto::{Cipher, HashType};

const ALL_KINDS: [HashType; 4] = [
    HashType::TableOffset,
    HashType::NameA,
    HashType::NameB,
    HashType::FileKey,
];

#[test]
fn hash_of_table_key_names() {
    let c = Cipher::new();
    assert_eq!(c.hash("(hash table)", HashType::FileKey), 0xC3AF_3770);
    assert_eq!(c.hash("(block table)", HashType::FileKey), 0xEC83_B3A3);
}

#[test]
fn hash_known_vectors_each_kind() {
    let c = Cipher::new();
    let expected = [0xF4E6_C69Du32, 0x0EC8_CB19, 0x16B0_AAFF, 0x3CD8_B78A];
    for (kind, want) in ALL_KINDS.iter().zip(expected.iter()) {
        assert_eq!(c.hash("arr\\units.dat", *kind), *want);
    }
}

#[test]
fn hash_is_deterministic_and_case_insensitive() {
    let c = Cipher::new();
    let expected = [0xC6ED_C457u32, 0xA514_DB66, 0xCDCD_A528, 0xB55D_9D7B];
    for (kind, want) in ALL_KINDS.iter().zip(expected.iter()) {
        let upper = c.hash("FOO.TXT", *kind);
        let lower = c.hash("foo.txt", *kind);
        assert_eq!(upper, lower);
        assert_eq!(upper, *want);
        assert_eq!(c.hash("FOO.TXT", *kind), upper);
        assert_eq!(c.hash_bytes(b"Foo.Txt", *kind), upper);
    }
}

#[test]
fn hash_does_not_normalise_separators() {
    let c = Cipher::new();
    let back = c.hash("a\\b", HashType::NameA);
    let fwd = c.hash("a/b", HashType::NameA);
    assert_ne!(back, fwd);
}

#[test]
fn hash_of_empty_text_is_initial_seed() {
    let c = Cipher::new();
    assert_eq!(c.hash("", HashType::NameB), 0x7FED_7FED);
}

#[test]
fn decrypt_known_vector() {
    let c = Cipher::new();
    let mut buf: Vec<u8> = vec![18, 193, 22, 40, 119, 138, 244, 134, 251, 2, 155, 173, 213, 20, 10, 29];
    assert!(c.decrypt(&mut buf, 0x1234_5678));
    let plain: Vec<u8> = (0u8..16).collect();
    assert_eq!(buf, plain);
}

#[test]
fn encrypt_known_vector() {
    let c = Cipher::new();
    let mut buf: Vec<u8> = (0u8..16).collect();
    assert!(c.encrypt(&mut buf, 0x1234_5678));
    assert_eq!(buf, vec![18, 193, 22, 40, 119, 138, 244, 134, 251, 2, 155, 173, 213, 20, 10, 29]);
}

#[test]
fn decrypt_inverts_encrypt_for_several_seeds() {
    let c = Cipher::new();
    for seed in [0u32, 1, 0xFFFF_FFFF, 0xC3AF_3770, 0x8000_0001] {
        for len in [0usize, 4, 8, 64, 1024] {
            let plain: Vec<u8> = (0..len).map(|i| (i * 37 % 251) as u8).collect();
            let mut buf = plain.clone();
            assert!(c.encrypt(&mut buf, seed));
            if len > 0 {
                assert_ne!(buf, plain);
            }
            assert!(c.decrypt(&mut buf, seed));
            assert_eq!(buf, plain);
        }
    }
}

#[test]
fn decrypt_with_other_seed_differs() {
    let c = Cipher::new();
    let plain: Vec<u8> = vec![7; 32];
    let mut buf = plain.clone();
    assert!(c.encrypt(&mut buf, 100));
    assert!(c.decrypt(&mut buf, 101));
    assert_ne!(buf, plain);
}

#[test]
fn cipher_refuses_unaligned_buffers() {
    let c = Cipher::new();
    let mut buf: Vec<u8> = vec![1, 2, 3, 4, 5];
    assert!(!c.decrypt(&mut buf, 9));
    assert_eq!(buf, vec![1, 2, 3, 4, 5]);
    assert!(!c.encrypt(&mut buf, 9));
    assert_eq!(buf, vec![1, 2, 3, 4, 5]);
}

#[test]
fn hash_kind_rows() {
    assert_eq!(HashType::TableOffset.table_row(), 0);
    assert_eq!(HashType::NameA.table_row(), 0x100);
    assert_eq!(HashType::NameB.table_row(), 0x200);
    assert_eq!(HashType::FileKey.table_row(), 0x300);
}
