use ceres_mpq::compression::{compress_mpq_block, decode_mpq_block, encode_mpq_block};
use ceres_mpq::creator::FileOptions;
use ceres_mpq::crypto::{
    calculate_file_key, decrypt_mpq_block, encrypt_mpq_block, generate_key_table, get_plain_name,
    hash_string, KeyTable,
};
use ceres_mpq::error::Error;
use ceres_mpq::header::FileHeader;
use ceres_mpq::sector_count_from_size;
use ceres_mpq::table::{BlockEntry, HashEntry, BLOCK_TABLE_KEY, HASH_TABLE_KEY};
use std::io::Read;

fn reference_table() -> Vec<u32> {
    let mut t = vec![0u32; 0x500];
    let mut seed: u32 = 0x0010_0001;
    for i in 0..0x100 {
        for j in 0..5 {
            seed = (seed * 125 + 3) % 0x2A_AAAB;
            let hi = (seed & 0xFFFF) << 16;
            seed = (seed * 125 + 3) % 0x2A_AAAB;
            t[i + 0x100 * j] = hi | (seed & 0xFFFF);
        }
    }
    t
}

#[test]
fn key_table_matches_generator() {
    let table = generate_key_table();
    assert_eq!(table[0], 0x55C6_36E2);
    assert_eq!(table, reference_table());
    let shared = KeyTable::new();
    assert_eq!(shared.get(0x4FF), reference_table()[0x4FF]);
}

#[test]
fn table_keys_are_name_hashes() {
    let t = KeyTable::new();
    assert_eq!(hash_string(&t, b"(hash table)", 0x300), 0xC3AF_3770);
    assert_eq!(hash_string(&t, b"(block table)", 0x300), 0xEC83_B3A3);
    assert_eq!(HASH_TABLE_KEY, 0xC3AF_3770);
    assert_eq!(BLOCK_TABLE_KEY, 0xEC83_B3A3);
}

#[test]
fn hash_folds_case_and_separators() {
    let t = KeyTable::new();
    for kind in [0u32, 0x100, 0x200, 0x300] {
        assert_eq!(hash_string(&t, b"a/b.txt", kind), hash_string(&t, b"A\\B.TXT", kind));
    }
    assert_ne!(hash_string(&t, b"a.txt", 0x100), hash_string(&t, b"b.txt", 0x100));
}

#[test]
fn zero_block_encrypts_and_decrypts() {
    let t = KeyTable::new();
    let mut data = vec![0u8; 16];
    encrypt_mpq_block(&t, &mut data, 0x1234_5678);
    assert_ne!(data, vec![0u8; 16]);
    decrypt_mpq_block(&t, &mut data, 0x1234_5678);
    assert_eq!(data, vec![0u8; 16]);
}

#[test]
fn cipher_round_trip_keeps_trailing_bytes() {
    let t = KeyTable::new();
    let original: Vec<u8> = (0..103u32).map(|i| (i * 31 % 256) as u8).collect();
    let mut data = original.clone();
    encrypt_mpq_block(&t, &mut data, 0xDEAD_BEEF);
    assert_eq!(&data[100..], &original[100..]);
    assert_ne!(&data[..100], &original[..100]);
    decrypt_mpq_block(&t, &mut data, 0xDEAD_BEEF);
    assert_eq!(data, original);
}

#[test]
fn plain_name_is_last_component() {
    assert_eq!(get_plain_name(b"FOO/BAR.TXT"), b"BAR.TXT");
    assert_eq!(get_plain_name(b"a\\b/c"), b"c");
    assert_eq!(get_plain_name(b"plain"), b"plain");
    assert_eq!(get_plain_name(b"dir\\"), b"");
}

#[test]
fn file_key_uses_plain_name_and_adjustment() {
    let t = KeyTable::new();
    let plain = hash_string(&t, b"BAR.TXT", 0x300);
    assert_eq!(calculate_file_key(&t, b"FOO/BAR.TXT", 5, 9, false), plain);
    assert_eq!(calculate_file_key(&t, b"foo\\bar.txt", 5, 9, false), plain);
    assert_eq!(calculate_file_key(&t, b"FOO/BAR.TXT", 5, 9, true), plain.wrapping_add(5) ^ 9);
}

#[test]
fn ima_adpcm_mono_is_unsupported() {
    let t = KeyTable::new();
    match decode_mpq_block(&t, &[0x40, 1, 2, 3], 10, None) {
        Err(Error::UnsupportedCompression { kind }) => assert_eq!(kind, "IMA ADPCM Mono"),
        _ => panic!("expected an unsupported compression"),
    }
}

#[test]
fn other_unsupported_methods() {
    let t = KeyTable::new();
    let kinds = [(0x80u8, "IMA ADPCM Stereo"), (0x01, "Huffman"), (0x08, "PKWare DCL")];
    for (method, name) in kinds {
        match decode_mpq_block(&t, &[method, 1, 2, 3], 10, None) {
            Err(Error::UnsupportedCompression { kind }) => assert_eq!(kind, name),
            _ => panic!("expected an unsupported compression"),
        }
    }
}

#[test]
fn sector_of_full_size_is_stored_verbatim() {
    let t = KeyTable::new();
    assert_eq!(decode_mpq_block(&t, b"abcd", 4, None).unwrap(), b"abcd".to_vec());
    assert!(matches!(decode_mpq_block(&t, &[], 4, None), Err(Error::Corrupted)));
}

#[test]
fn zlib_sector_compresses_and_decodes() {
    let t = KeyTable::new();
    let data = vec![0x41u8; 4096];
    let packed = compress_mpq_block(&data);
    assert_eq!(packed[0], 0x02);
    assert!(packed.len() < 100);
    assert_eq!(decode_mpq_block(&t, &packed, 4096, None).unwrap(), data);
    let encoded = encode_mpq_block(&t, &data, Some(77));
    assert_ne!(encoded, packed);
    assert_eq!(decode_mpq_block(&t, &encoded, 4096, Some(77)).unwrap(), data);
}

#[test]
fn incompressible_sector_stays_verbatim() {
    let data: Vec<u8> = vec![1, 2, 3];
    assert_eq!(compress_mpq_block(&data), data);
}

#[test]
fn bad_zlib_stream_is_corrupted() {
    let t = KeyTable::new();
    assert!(matches!(decode_mpq_block(&t, &[0x02, 9, 9, 9], 100, None), Err(Error::Corrupted)));
}

#[test]
fn bzip2_sector_decodes() {
    let t = KeyTable::new();
    let data = vec![0x42u8; 3000];
    let mut compressed = Vec::new();
    bzip2::read::BzEncoder::new(data.as_slice(), bzip2::Compression::default())
        .read_to_end(&mut compressed)
        .unwrap();
    let mut sector = vec![0x10u8];
    sector.extend_from_slice(&compressed);
    assert_eq!(decode_mpq_block(&t, &sector, 3000, None).unwrap(), data);
}

#[test]
fn sector_counts() {
    assert_eq!(sector_count_from_size(0, 512), 0);
    assert_eq!(sector_count_from_size(1, 512), 1);
    assert_eq!(sector_count_from_size(512, 512), 1);
    assert_eq!(sector_count_from_size(513, 512), 2);
    assert_eq!(sector_count_from_size(102400, 0x10000), 2);
}

#[test]
fn header_exponent_of_sector_size() {
    assert_eq!(FileHeader::new_v1(1, 0x10000, 2, 3, 4, 5).block_size, 7);
    assert_eq!(FileHeader::new_v1(1, 512, 2, 3, 4, 5).block_size, 0);
    let h = FileHeader::new_v1(100, 4096, 32, 64, 4, 1);
    let mut bytes = Vec::new();
    h.write(&mut bytes);
    assert_eq!(bytes.len(), 32);
    let back = FileHeader::from_reader(&bytes, 4).unwrap();
    assert_eq!(back.archive_size, 100);
    assert_eq!(back.block_size, 3);
    assert_eq!(back.hash_table_entries, 4);
}

#[test]
fn entries_encode_and_decode() {
    let e = HashEntry::new(1, 2, 3);
    let mut bytes = Vec::new();
    e.write(&mut bytes);
    assert_eq!(HashEntry::from_reader(&bytes, 0), e);
    assert!(HashEntry::blank().is_blank());
    assert!(!e.is_blank());
    let b = BlockEntry::new(10, 20, 30, 0x8001_0200);
    let mut bytes = Vec::new();
    b.write(&mut bytes);
    assert_eq!(BlockEntry::from_reader(&bytes, 0), b);
    assert!(b.is_compressed() && b.is_encrypted() && !b.is_key_adjusted() && !b.is_imploded());
}

#[test]
fn options_give_flags() {
    assert_eq!(FileOptions::default().flags(), 0x8000_0000);
    let all = FileOptions { encrypt: true, compress: true, adjust_key: true };
    assert_eq!(all.flags(), 0x8003_0200);
}
