use ceres_mpq::archive::Archive;
use ceres_mpq::creator::{Creator, FileOptions};
use ceres_mpq::crypto::KeyTable;
use ceres_mpq::error::Error;
use ceres_mpq::header::FileHeader;
use ceres_mpq::seeker::MpqSeeker;
use ceres_mpq::table::{FileBlockTable, FileHashTable};

fn opts(encrypt: bool, compress: bool, adjust_key: bool) -> FileOptions {
    FileOptions { encrypt, compress, adjust_key }
}

fn build(files: &[(&str, Vec<u8>, FileOptions)]) -> Vec<u8> {
    let mut creator = Creator::default();
    for (name, contents, options) in files {
        creator.add_file(name, contents.clone(), *options);
    }
    let mut out = Vec::new();
    creator.write(&mut out);
    out
}

fn header_of(image: &[u8]) -> (usize, FileHeader) {
    let seeker = MpqSeeker::new(image.to_vec()).unwrap();
    let start = seeker.archive_info.header_offset as usize;
    (start, FileHeader::from_reader(image, start + 4).unwrap())
}

#[test]
fn hello_world_round_trip() {
    let image = build(&[("hello.txt", b"hello world!".to_vec(), opts(false, true, false))]);
    let archive = Archive::open(image).unwrap();
    let file = archive.read_file("hello.txt").unwrap();
    assert_eq!(file.as_slice(), b"hello world!");
}

#[test]
fn two_sector_file_round_trip() {
    let data = vec![0x41u8; 100 * 1024];
    let image = build(&[("a.txt", data.clone(), opts(false, true, false))]);
    let archive = Archive::open(image.clone()).unwrap();
    assert_eq!(archive.read_file("a.txt").unwrap(), data);

    let table = KeyTable::new();
    let seeker = MpqSeeker::new(image).unwrap();
    let blocks = FileBlockTable::from_seeker(&table, &seeker).unwrap();
    let entry = blocks.get(0).unwrap();
    assert_eq!(entry.uncompressed_size, 102400);
    assert!(entry.compressed_size < 102400 / 10);
    assert!(entry.is_compressed());
}

#[test]
fn encrypted_adjusted_file_read_with_other_case_and_separator() {
    let data = b"some secret contents that are long enough".to_vec();
    let image = build(&[("FOO/BAR.TXT", data.clone(), opts(true, true, true))]);
    let archive = Archive::open(image).unwrap();
    assert_eq!(archive.read_file("foo\\bar.txt").unwrap(), data);
    assert_eq!(archive.read_file("FOO/BAR.TXT").unwrap(), data);
}

#[test]
fn case_and_separator_insensitive_lookup() {
    let data = b"contents of b".to_vec();
    let image = build(&[("a/b.txt", data.clone(), opts(false, true, false))]);
    let archive = Archive::open(image).unwrap();
    let one = archive.read_file("a/b.txt").unwrap();
    let two = archive.read_file("A\\B.TXT").unwrap();
    assert_eq!(one, two);
    assert_eq!(one, data);
}

#[test]
fn round_trip_every_option_combination() {
    let mut files: Vec<(String, Vec<u8>, FileOptions)> = Vec::new();
    let mut n = 0u32;
    for encrypt in [false, true] {
        for compress in [false, true] {
            for adjust_key in [false, true] {
                let name = format!("dir\\file{}.bin", n);
                let contents: Vec<u8> = (0..(70000 + n * 1000)).map(|i| (i * 7 % 251) as u8).collect();
                files.push((name, contents, opts(encrypt, compress, adjust_key)));
                n += 1;
            }
        }
    }
    files.push(("empty.txt".to_string(), Vec::new(), opts(true, true, true)));
    files.push(("tiny.txt".to_string(), b"abc".to_vec(), opts(true, false, true)));
    let borrowed: Vec<(&str, Vec<u8>, FileOptions)> =
        files.iter().map(|(a, b, c)| (a.as_str(), b.clone(), *c)).collect();
    let image = build(&borrowed);
    let archive = Archive::open(image).unwrap();
    for (name, contents, _) in &files {
        assert_eq!(&archive.read_file(name).unwrap(), contents, "file {}", name);
    }
}

#[test]
fn archive_after_existing_bytes_starts_on_boundary() {
    let mut creator = Creator::default();
    creator.add_file("x.txt", b"xyz".to_vec(), opts(true, true, true));
    let mut out = vec![7u8; 100];
    creator.write(&mut out);
    assert_eq!(&out[..100], &[7u8; 100][..]);
    assert!(out[100..512].iter().all(|b| *b == 0));
    assert_eq!(&out[512..516], b"MPQ\x1a");
    let archive = Archive::open(out).unwrap();
    assert_eq!(archive.read_file("x.txt").unwrap(), b"xyz".to_vec());
}

#[test]
fn five_files_give_hash_table_of_eight() {
    let files: Vec<(String, Vec<u8>, FileOptions)> = (0..5)
        .map(|i| (format!("f{}.txt", i), vec![i as u8; 10], opts(false, true, false)))
        .collect();
    let borrowed: Vec<(&str, Vec<u8>, FileOptions)> =
        files.iter().map(|(a, b, c)| (a.as_str(), b.clone(), *c)).collect();
    let image = build(&borrowed);
    let (_, header) = header_of(&image);
    assert_eq!(header.hash_table_entries, 8);
    assert_eq!(header.block_table_entries, 6);
}

#[test]
fn header_sizes_match_tables_and_archive_extent() {
    let image = build(&[
        ("one.txt", b"1".to_vec(), opts(false, false, false)),
        ("two.txt", b"22".to_vec(), opts(true, true, false)),
    ]);
    let (start, header) = header_of(&image);
    assert_eq!(start, 0);
    assert_eq!(header.archive_size as usize, image.len() - start);
    assert_eq!(header.format_version, 0);
    assert_eq!(header.block_size, 7);
    assert_eq!(header.header_size, 32);
    let table = KeyTable::new();
    let seeker = MpqSeeker::new(image.clone()).unwrap();
    let hashes = FileHashTable::from_seeker(&table, &seeker).unwrap();
    let blocks = FileBlockTable::from_seeker(&table, &seeker).unwrap();
    assert_eq!(hashes.entries.len() as u32, header.hash_table_entries);
    assert_eq!(blocks.entries.len() as u32, header.block_table_entries);
    assert_eq!(
        header.block_table_offset as usize + 16 * blocks.entries.len(),
        header.archive_size as usize
    );
    assert_eq!(
        header.hash_table_offset as usize + 16 * hashes.entries.len(),
        header.block_table_offset as usize
    );
}

#[test]
fn every_inserted_name_is_found_by_the_probe() {
    let names: Vec<String> = (0..40).map(|i| format!("war3map{}.j", i)).collect();
    let borrowed: Vec<(&str, Vec<u8>, FileOptions)> = names
        .iter()
        .map(|n| (n.as_str(), n.as_bytes().to_vec(), opts(false, true, false)))
        .collect();
    let image = build(&borrowed);
    let table = KeyTable::new();
    let seeker = MpqSeeker::new(image.clone()).unwrap();
    let hashes = FileHashTable::from_seeker(&table, &seeker).unwrap();
    assert_eq!(hashes.entries.len(), 64);
    let used = hashes.entries.iter().filter(|e| !e.is_blank()).count();
    assert_eq!(used, 41);
    let archive = Archive::open(image).unwrap();
    for (i, n) in names.iter().enumerate() {
        let entry = hashes.find_entry(&table, n.as_bytes()).unwrap();
        assert_eq!(entry.block_index, i as u32);
        assert_eq!(archive.read_file(n).unwrap(), n.as_bytes().to_vec());
    }
}

#[test]
fn listfile_names_every_added_file() {
    let image = build(&[
        ("a/b.txt", b"1".to_vec(), opts(false, true, false)),
        ("c.txt", b"2".to_vec(), opts(false, true, false)),
    ]);
    let archive = Archive::open(image).unwrap();
    let names = archive.files().unwrap();
    assert_eq!(names, vec!["a\\b.txt".to_string(), "c.txt".to_string()]);
    let listfile = archive.read_file("(listfile)").unwrap();
    assert_eq!(listfile, b"a\\b.txt\r\nc.txt\r\n".to_vec());
}

#[test]
fn second_add_under_same_key_keeps_first() {
    let image = build(&[
        ("dup.txt", b"first".to_vec(), opts(false, true, false)),
        ("DUP.TXT", b"second".to_vec(), opts(false, true, false)),
    ]);
    let archive = Archive::open(image).unwrap();
    assert_eq!(archive.read_file("dup.txt").unwrap(), b"first".to_vec());
    assert_eq!(archive.files().unwrap(), vec!["dup.txt".to_string()]);
}

#[test]
fn missing_file_is_not_found() {
    let image = build(&[("here.txt", b"x".to_vec(), opts(false, true, false))]);
    let archive = Archive::open(image).unwrap();
    assert!(matches!(archive.read_file("nothere.txt"), Err(Error::FileNotFound)));
}

#[test]
fn no_magic_gives_no_header() {
    assert!(matches!(Archive::open(vec![0u8; 4096]), Err(Error::NoHeader)));
    assert!(matches!(Archive::open(Vec::new()), Err(Error::NoHeader)));
}

#[test]
fn other_format_version_is_unsupported() {
    let mut image = build(&[("v.txt", b"v".to_vec(), opts(false, true, false))]);
    image[12] = 1;
    assert!(matches!(Archive::open(image), Err(Error::UnsupportedVersion)));
}

#[test]
fn truncated_archive_is_corrupted() {
    let image = build(&[("t.txt", b"t".to_vec(), opts(false, true, false))]);
    let cut = image[..image.len() - 8].to_vec();
    assert!(matches!(Archive::open(cut), Err(Error::Corrupted)));
}

#[test]
fn user_header_points_at_archive() {
    let archive_image = build(&[("u.txt", b"user".to_vec(), opts(true, true, true))]);
    let mut image = Vec::new();
    image.extend_from_slice(b"MPQ\x1b");
    image.extend_from_slice(&0u32.to_le_bytes());
    image.extend_from_slice(&1024u32.to_le_bytes());
    image.resize(1024, 0);
    image.extend_from_slice(&archive_image);
    let archive = Archive::open(image).unwrap();
    assert_eq!(archive.read_file("u.txt").unwrap(), b"user".to_vec());
}

#[test]
fn user_header_pointing_outside_is_corrupted() {
    let mut image = Vec::new();
    image.extend_from_slice(b"MPQ\x1b");
    image.extend_from_slice(&0u32.to_le_bytes());
    image.extend_from_slice(&100000u32.to_le_bytes());
    image.resize(1024, 0);
    assert!(matches!(Archive::open(image), Err(Error::Corrupted)));
}

#[test]
fn archive_without_listfile_lists_nothing() {
    let image = build(&[("a.txt", b"a".to_vec(), opts(false, true, false))]);
    let archive = Archive::open(image).unwrap();
    assert!(archive.files().is_some());
    let empty = Creator::default();
    let _ = empty;
}
