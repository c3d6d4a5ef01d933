//! The archive writer.
use vstd::prelude::*;
use indexmap::IndexMap;
use vstd::string::StringSliceAdditionalSpecFns;
use crate::bytes::{u32_bytes, push_u32};
use crate::compression::{encode_sector, encode_mpq_block};
use crate::crypto::{
    KeyTable, name_hash, hash_string, encrypt_bytes, encrypt_mpq_block, file_key, calculate_file_key,
    lemma_cipher_len, KEY2_SEED, HASH_NAME_A, HASH_NAME_B, HASH_TABLE_INDEX,
};
use crate::archive::shifted_key;
use crate::header::{FileHeader, header_bytes, parse_header, exp2, lemma_exp2_monotone, HEADER_MPQ_SIZE};
use crate::bytes::{u32_at, u16_at, lemma_le32_of_bytes, lemma_le16_of_bytes};
use crate::header::HEADER_MPQ_MAGIC;
use crate::archive::listfile_name;
use crate::table::{
    HashEntry, BlockEntry, blank_entry, hash_entry_bytes, block_entry_bytes, HASH_TABLE_EMPTY_ENTRY,
    HASH_TABLE_KEY, BLOCK_TABLE_KEY,
};
use crate::table::{sector_count, sector_count_from_size, MPQ_FILE_IMPLODE, MPQ_FILE_EXISTS, MPQ_FILE_ENCRYPTED, MPQ_FILE_ADJUST_KEY, MPQ_FILE_COMPRESS};

verus! {

#[verifier::external_type_specification]
#[verifier::external_body]
#[verifier::reject_recursive_types(K)]
#[verifier::reject_recursive_types(V)]
#[verifier::reject_recursive_types(S)]
pub struct ExIndexMap<K, V, S>(IndexMap<K, V, S>);

/// Options for a file added to an archive.
#[derive(Debug, Clone, Copy, PartialEq, Eq, Structural)]
pub struct FileOptions {
    /// Encrypt the file with a key derived from its name.
    pub encrypt: bool,
    /// Compress the file sector by sector with DEFLATE.
    pub compress: bool,
    /// Adjust the encryption key by the file's offset and size.
    pub adjust_key: bool,
}

impl Default for FileOptions {
    fn default() -> (r: FileOptions)
        ensures
            r == (FileOptions { encrypt: false, compress: false, adjust_key: false }),
    {
        FileOptions { encrypt: false, compress: false, adjust_key: false }
    }
}

/// The block flags that `options` give.
pub open spec fn options_flags(options: FileOptions) -> u32 {
    MPQ_FILE_EXISTS | (if options.encrypt {
        MPQ_FILE_ENCRYPTED
    } else {
        0
    }) | (if options.adjust_key {
        MPQ_FILE_ADJUST_KEY
    } else {
        0
    }) | (if options.compress {
        MPQ_FILE_COMPRESS
    } else {
        0
    })
}

/// Which options the flags of a written file show.
pub proof fn lemma_flag_bits(options: FileOptions)
    ensures
        (options_flags(options) & MPQ_FILE_COMPRESS != 0) == options.compress,
        (options_flags(options) & MPQ_FILE_ENCRYPTED != 0) == options.encrypt,
        (options_flags(options) & MPQ_FILE_ADJUST_KEY != 0) == options.adjust_key,
        options_flags(options) & MPQ_FILE_IMPLODE == 0,
{
    let e: u32 = if options.encrypt { MPQ_FILE_ENCRYPTED } else { 0 };
    let a: u32 = if options.adjust_key { MPQ_FILE_ADJUST_KEY } else { 0 };
    let c: u32 = if options.compress { MPQ_FILE_COMPRESS } else { 0 };
    let f = options_flags(options);
    assert(f == 0x8000_0000u32 | e | a | c);
    assert(((f & 0x200u32) != 0) == (c != 0) && ((f & 0x1_0000u32) != 0) == (e != 0) && ((f & 0x2_0000u32)
        != 0) == (a != 0) && (f & 0x100u32) == 0) by (bit_vector)
        requires
            e == 0 || e == 0x1_0000u32,
            a == 0 || a == 0x2_0000u32,
            c == 0 || c == 0x200u32,
            f == 0x8000_0000u32 | e | a | c,
    ;
}

impl FileOptions {
    /// The block flags of a file added with these options.
    pub fn flags(self) -> (r: u32)
        ensures
            r == options_flags(self),
    {
        let encrypted = if self.encrypt {
            MPQ_FILE_ENCRYPTED
        } else {
            0
        };
        let adjusted = if self.adjust_key {
            MPQ_FILE_ADJUST_KEY
        } else {
            0
        };
        let compressed = if self.compress {
            MPQ_FILE_COMPRESS
        } else {
            0
        };
        MPQ_FILE_EXISTS | encrypted | adjusted | compressed
    }
}

/// The three hashes under which a file is stored.
#[derive(Debug, Clone, Copy, PartialEq, Eq, Structural)]
pub struct FileKey {
    pub hash_a: u32,
    pub hash_b: u32,
    pub index: u32,
}

/// The key of the name `name`.
pub open spec fn key_of(name: Seq<u8>) -> (u32, u32, u32) {
    (name_hash(name, HASH_NAME_A), name_hash(name, HASH_NAME_B), name_hash(name, HASH_TABLE_INDEX))
}

impl FileKey {
    /// The key of the name `name`.
    pub fn new(table: &KeyTable, name: &[u8]) -> (r: FileKey)
        requires
            table.wf(),
        ensures
            (r.hash_a, r.hash_b, r.index) == key_of(name@),
    {
        FileKey {
            hash_a: hash_string(table, name, HASH_NAME_A),
            hash_b: hash_string(table, name, HASH_NAME_B),
            index: hash_string(table, name, HASH_TABLE_INDEX),
        }
    }
}

/// A file waiting to be written.
#[derive(Debug)]
pub struct FileRecord {
    pub file_name: Vec<u8>,
    pub contents: Vec<u8>,
    pub options: FileOptions,
}

/// The mathematical value of a pending file: name, contents, options.
pub open spec fn record_view(r: FileRecord) -> (Seq<u8>, Seq<u8>, FileOptions) {
    (r.file_name@, r.contents@, r.options)
}

impl FileRecord {
    /// A pending file.
    pub fn new(file_name: Vec<u8>, contents: Vec<u8>, options: FileOptions) -> (r: FileRecord)
        ensures
            r.file_name@ == file_name@,
            r.contents@ == contents@,
            r.options == options,
    {
        FileRecord { file_name, contents, options }
    }
}

/// The entries of a map of pending files, in insertion order.
pub uninterp spec fn pending_entries(m: IndexMap<(u32, u32, u32), FileRecord>) -> Seq<((u32, u32, u32), FileRecord)>;

/// Whether `k` is a key of `entries`.
pub open spec fn has_key(entries: Seq<((u32, u32, u32), FileRecord)>, k: (u32, u32, u32)) -> bool {
    exists|i: int| 0 <= i < entries.len() && #[trigger] entries[i].0 == k
}

/// Relies on `IndexMap::new`: the map is empty.
#[verifier::external_body]
fn pending_new() -> (r: IndexMap<(u32, u32, u32), FileRecord>)
    ensures
        pending_entries(r) == Seq::<((u32, u32, u32), FileRecord)>::empty(),
{
    IndexMap::new()
}

/// Relies on `IndexMap::len`: the number of entries.
#[verifier::external_body]
fn pending_len(m: &IndexMap<(u32, u32, u32), FileRecord>) -> (r: usize)
    ensures
        r == pending_entries(*m).len(),
{
    m.len()
}

/// Relies on `IndexMap::contains_key`: whether an entry has the key `k`.
#[verifier::external_body]
fn pending_contains(m: &IndexMap<(u32, u32, u32), FileRecord>, k: &(u32, u32, u32)) -> (r: bool)
    ensures
        r == has_key(pending_entries(*m), *k),
{
    m.contains_key(k)
}

/// Relies on `IndexMap::insert`: a new key goes last; an existing key keeps
/// its place and takes the new value.
#[verifier::external_body]
fn pending_insert(m: &mut IndexMap<(u32, u32, u32), FileRecord>, k: (u32, u32, u32), v: FileRecord)
    ensures
        !has_key(pending_entries(*old(m)), k) ==> pending_entries(*final(m)) == pending_entries(
            *old(m),
        ).push((k, v)),
        has_key(pending_entries(*old(m)), k) ==> exists|i: int|
            0 <= i < pending_entries(*old(m)).len() && pending_entries(*old(m))[i].0 == k
                && pending_entries(*final(m)) == pending_entries(*old(m)).update(i, (k, v)),
{
    m.insert(k, v);
}

/// Relies on `IndexMap::get_index`: the entry at position `i`, if there is one.
#[verifier::external_body]
fn pending_get(m: &IndexMap<(u32, u32, u32), FileRecord>, i: usize) -> (r: Option<
    (&(u32, u32, u32), &FileRecord),
>)
    ensures
        i < pending_entries(*m).len() <==> r is Some,
        r matches Some(p) ==> (*p.0, *p.1) == pending_entries(*m)[i as int],
{
    m.get_index(i)
}

/// The name with each `/` turned into `\`.
pub open spec fn backslashed(name: Seq<u8>) -> Seq<u8> {
    Seq::new(name.len(), |i: int| if name[i] == 0x2F { 0x5Cu8 } else { name[i] })
}

/// Turns each `/` of `name` into `\`.
pub fn backslash_name(name: &[u8]) -> (r: Vec<u8>)
    ensures
        r@ == backslashed(name@),
{
    let mut r: Vec<u8> = Vec::new();
    let mut i: usize = 0;
    while i < name.len()
        invariant
            i <= name@.len(),
            r@ == backslashed(name@).subrange(0, i as int),
        decreases name@.len() - i,
    {
        if name[i] == 0x2F {
            r.push(0x5C);
        } else {
            r.push(name[i]);
        }
        i = i + 1;
        proof {
            assert(r@ =~= backslashed(name@).subrange(0, i as int));
        }
    }
    proof {
        assert(r@ =~= backslashed(name@));
    }
    r
}

/// A pending file as its key and the value of its record.
pub type PendingView = ((u32, u32, u32), (Seq<u8>, Seq<u8>, FileOptions));

/// The values of the pending files.
pub open spec fn pending_view(entries: Seq<((u32, u32, u32), FileRecord)>) -> Seq<PendingView> {
    entries.map_values(|e: ((u32, u32, u32), FileRecord)| (e.0, record_view(e.1)))
}

/// Whether `k` is the key of one of `files`.
pub open spec fn has_file_key(files: Seq<PendingView>, k: (u32, u32, u32)) -> bool {
    exists|i: int| 0 <= i < files.len() && #[trigger] files[i].0 == k
}

/// No two entries share a key.
pub open spec fn keys_unique(entries: Seq<((u32, u32, u32), FileRecord)>) -> bool {
    forall|i: int, j: int| 0 <= i < j < entries.len() ==> #[trigger] entries[i].0 != #[trigger] entries[j].0
}

/// Default sector size of a new archive.
pub const DEFAULT_SECTOR_SIZE: u64 = 0x10000;

/// A writer of MPQ archives: it holds the added files in memory until they
/// are written, together with a `(listfile)` of their names.
pub struct Creator {
    key_table: KeyTable,
    added_files: IndexMap<(u32, u32, u32), FileRecord>,
    sector_size: u64,
}

impl Default for Creator {
    /// A writer with no files and sectors of 0x10000 bytes.
    fn default() -> (r: Creator)
        ensures
            r.wf(),
            r.pending() == Seq::<PendingView>::empty(),
            r.sector_size_spec() == DEFAULT_SECTOR_SIZE,
    {
        Creator::new()
    }
}

impl Creator {
    /// The files added so far, in order, with their keys.
    pub closed spec fn pending(&self) -> Seq<PendingView> {
        pending_view(pending_entries(self.added_files))
    }

    /// The sector size of the archive to be written.
    pub closed spec fn sector_size_spec(&self) -> u64 {
        self.sector_size
    }

    /// The parts of the writer agree.
    pub closed spec fn wf(&self) -> bool {
        &&& self.key_table.wf()
        &&& keys_unique(pending_entries(self.added_files))
        &&& self.sector_size == DEFAULT_SECTOR_SIZE
    }

    /// A writer with no files and sectors of 0x10000 bytes.
    pub fn new() -> (r: Creator)
        ensures
            r.wf(),
            r.pending() == Seq::<PendingView>::empty(),
            r.sector_size_spec() == DEFAULT_SECTOR_SIZE,
    {
        Creator { key_table: KeyTable::new(), added_files: pending_new(), sector_size: DEFAULT_SECTOR_SIZE }
    }

    /// Adds a file to be written later, its `/` turned into `\`. A file whose
    /// name has the key of one added before is ignored: the first stays.
    pub fn add_file(&mut self, file_name: &str, contents: Vec<u8>, options: FileOptions)
        requires
            old(self).wf(),
        ensures
            final(self).wf(),
            final(self).sector_size_spec() == old(self).sector_size_spec(),
            has_file_key(old(self).pending(), key_of(backslashed(file_name.spec_bytes()))) ==> final(self).pending() == old(self).pending(),
            !has_file_key(old(self).pending(), key_of(backslashed(file_name.spec_bytes()))) ==> final(self).pending() == old(self).pending().push(
                (
                    key_of(backslashed(file_name.spec_bytes())),
                    (backslashed(file_name.spec_bytes()), contents@, options),
                ),
            ),
    {
        let name = backslash_name(file_name.as_bytes());
        let key = FileKey::new(&self.key_table, name.as_slice());
        let k = (key.hash_a, key.hash_b, key.index);
        let ghost before = pending_entries(self.added_files);
        proof {
            lemma_has_key_view(before, k);
        }
        if !pending_contains(&self.added_files, &k) {
            let record = FileRecord::new(name, contents, options);
            pending_insert(&mut self.added_files, k, record);
            proof {
                let after = pending_entries(self.added_files);
                assert(pending_view(after) =~= pending_view(before).push((k, record_view(record))));
                assert(keys_unique(after)) by {
                    assert forall|i: int, j: int| 0 <= i < j < after.len() implies #[trigger] after[i].0
                        != #[trigger] after[j].0 by {
                        if j == after.len() - 1 {
                            assert(after[i] == before[i]);
                        } else {
                            assert(after[i] == before[i] && after[j] == before[j]);
                        }
                    }
                }
            }
        }
    }
}

proof fn lemma_has_key_view(entries: Seq<((u32, u32, u32), FileRecord)>, k: (u32, u32, u32))
    ensures
        has_key(entries, k) == has_file_key(pending_view(entries), k),
{
    if has_key(entries, k) {
        let i = choose|i: int| 0 <= i < entries.len() && #[trigger] entries[i].0 == k;
        assert(pending_view(entries)[i].0 == k);
    }
    if has_file_key(pending_view(entries), k) {
        let i = choose|i: int| 0 <= i < pending_view(entries).len() && #[trigger] pending_view(entries)[i].0 == k;
        assert(entries[i].0 == k);
    }
}

/// Sector `i` of `data`, for sectors of `s` bytes.
pub open spec fn sector_chunk(data: Seq<u8>, s: nat, i: nat) -> Seq<u8> {
    let start: int = (i * s) as int;
    let end: int = if (i + 1) * s <= data.len() {
        ((i + 1) * s) as int
    } else {
        data.len() as int
    };
    data.subrange(start as int, end)
}

/// The parts joined in order.
pub open spec fn concat(parts: Seq<Seq<u8>>) -> Seq<u8>
    decreases parts.len(),
{
    if parts.len() == 0 {
        Seq::empty()
    } else {
        concat(parts.drop_last()) + parts.last()
    }
}

/// `b` encrypted with `key` where there is one.
pub open spec fn maybe_encrypt(b: Seq<u8>, key: Option<u32>) -> Seq<u8> {
    match key {
        Some(k) => encrypt_bytes(b, k),
        None => b,
    }
}

/// The stored form of each sector of `data`: packed where `compress`, then
/// encrypted with `key + i` where there is a key.
pub open spec fn sector_blobs(data: Seq<u8>, s: nat, key: Option<u32>, compress: bool) -> Seq<Seq<u8>> {
    Seq::new(
        sector_count(data.len(), s),
        |i: int|
            if compress {
                encode_sector(sector_chunk(data, s, i as nat), shifted_key(key, i as u32))
            } else {
                maybe_encrypt(sector_chunk(data, s, i as nat), shifted_key(key, i as u32))
            },
    )
}

/// The sector offset table of the stored sectors `blobs`: the table itself
/// comes first, each sector right after the one before.
pub open spec fn sot_entries(blobs: Seq<Seq<u8>>) -> Seq<u32> {
    Seq::new(blobs.len() + 1, |i: int| (4 * (blobs.len() + 1) + concat(blobs.take(i)).len()) as u32)
}

/// The little-endian bytes of each word, joined.
pub open spec fn u32s_bytes(v: Seq<u32>) -> Seq<u8>
    decreases v.len(),
{
    if v.len() == 0 {
        Seq::empty()
    } else {
        u32s_bytes(v.drop_last()) + u32_bytes(v.last())
    }
}

/// The encryption key of a file written with `options` at archive offset `offset`.
pub open spec fn write_key(name: Seq<u8>, data: Seq<u8>, options: FileOptions, offset: u32) -> Option<u32> {
    if options.encrypt {
        Some(file_key(name, offset, data.len() as u32, options.adjust_key))
    } else {
        None
    }
}

/// The stored form of a file at archive offset `offset`: a compressed file is
/// its sector offset table (encrypted with `key - 1`) and its packed sectors,
/// an uncompressed one its sectors alone.
pub open spec fn file_body(name: Seq<u8>, data: Seq<u8>, options: FileOptions, offset: u32, s: nat) -> Seq<u8> {
    let key = write_key(name, data, options, offset);
    let blobs = sector_blobs(data, s, key, options.compress);
    if options.compress {
        maybe_encrypt(u32s_bytes(sot_entries(blobs)), shifted_key(key, 0xFFFF_FFFF)) + concat(blobs)
    } else {
        concat(blobs)
    }
}

proof fn lemma_concat_step(parts: Seq<Seq<u8>>, i: int)
    requires
        0 <= i < parts.len(),
    ensures
        concat(parts.take(i + 1)) == concat(parts.take(i)) + parts[i],
{
    assert(parts.take(i + 1).drop_last() =~= parts.take(i));
}

proof fn lemma_u32s_step(v: Seq<u32>, i: int)
    requires
        0 <= i < v.len(),
    ensures
        u32s_bytes(v.take(i + 1)) == u32s_bytes(v.take(i)) + u32_bytes(v[i]),
{
    assert(v.take(i + 1).drop_last() =~= v.take(i));
}

proof fn lemma_chunk_len(data: Seq<u8>, s: nat, i: nat)
    requires
        s > 0,
        i < sector_count(data.len(), s),
    ensures
        i * s < data.len(),
        sector_chunk(data, s, i).len() <= s,
{
    assert(i * s < data.len()) by (nonlinear_arith)
        requires
            s > 0,
            i < sector_count(data.len(), s),
            data.len() > 0 ==> sector_count(data.len(), s) == (data.len() - 1) as nat / s + 1,
            data.len() == 0 ==> sector_count(data.len(), s) == 0,
    {
        if data.len() > 0 {
            let q = (data.len() - 1) as nat / s;
            assert(q * s <= (data.len() - 1) as nat) by (nonlinear_arith)
                requires q == (data.len() - 1) as nat / s, s > 0;
            assert(i <= q);
            vstd::arithmetic::mul::lemma_mul_inequality(i as int, q as int, s as int);
        }
    }
    assert((i + 1) * s == i * s + s) by (nonlinear_arith);
}

/// The stored form of sector `i` of `data`.
fn encode_file_sector(
    table: &KeyTable,
    data: &[u8],
    sector_size: u64,
    i: u64,
    key: Option<u32>,
    compress: bool,
) -> (r: Vec<u8>)
    requires
        table.wf(),
        512 <= sector_size <= 0x8000_0000,
        data@.len() <= u32::MAX,
        i < sector_count(data@.len(), sector_size as nat),
    ensures
        r@ == sector_blobs(data@, sector_size as nat, key, compress)[i as int],
{
    let ghost s = sector_size as nat;
    let len = data.len();
    proof {
        lemma_chunk_len(data@, s, i as nat);
        assert(i * sector_size < len);
    }
    let start = (i * sector_size) as usize;
    let end = if len - start > sector_size as usize {
        start + sector_size as usize
    } else {
        len
    };
    let chunk = vstd::slice::slice_subrange(data, start, end);
    proof {
        assert((i + 1) * s == i * s + s) by (nonlinear_arith);
        assert(chunk@ =~= sector_chunk(data@, s, i as nat));
    }
    let key_i = match key {
        Some(k) => Some(k.wrapping_add(i as u32)),
        None => None,
    };
    if compress {
        encode_mpq_block(table, chunk, key_i)
    } else {
        let mut plain = copy_bytes(chunk);
        if let Some(k) = key_i {
            encrypt_mpq_block(table, &mut plain, k);
        }
        plain
    }
}

/// Copies the bytes of `b`.
fn copy_bytes(b: &[u8]) -> (r: Vec<u8>)
    ensures
        r@ == b@,
{
    vstd::slice::slice_to_vec(b)
}

#[verifier::rlimit(100)]
/// Appends the stored form of `file` at the end of `out`, which is its archive
/// offset counted from `archive_start`, and returns that offset and the
/// stored size.
pub fn write_file(
    table: &KeyTable,
    sector_size: u64,
    archive_start: usize,
    out: &mut Vec<u8>,
    file: &FileRecord,
) -> (r: (u64, u64))
    requires
        table.wf(),
        512 <= sector_size <= 0x8000_0000,
        archive_start <= old(out)@.len(),
        file.contents@.len() <= u32::MAX,
    ensures
        final(out)@ == old(out)@ + file_body(
            file.file_name@,
            file.contents@,
            file.options,
            (old(out)@.len() - archive_start) as u32,
            sector_size as nat,
        ),
        r.0 == old(out)@.len() - archive_start,
        r.1 == final(out)@.len() - old(out)@.len(),
{
    let options = file.options;
    let data = file.contents.as_slice();
    let len = data.len();
    let count = sector_count_from_size(len as u64, sector_size);
    let file_start = out.len();
    let offset = (file_start - archive_start) as u32;
    let ghost s = sector_size as nat;
    let encryption_key = if options.encrypt {
        Some(calculate_file_key(table, file.file_name.as_slice(), offset, len as u32, options.adjust_key))
    } else {
        None
    };
    let ghost blobs = sector_blobs(data@, s, encryption_key, options.compress);
    proof {
        assert(encryption_key == write_key(file.file_name@, data@, options, offset));
        assert(count <= len) by (nonlinear_arith)
            requires
                sector_size > 0,
                count == sector_count(len as nat, sector_size as nat),
        {
            if len > 0 {
                assert((len - 1) as nat / (sector_size as nat) <= (len - 1) as nat);
            }
        }
    }
    let table_len: u64 = 4 * (count + 1);
    let mut sectors: Vec<u8> = Vec::new();
    let mut sot: Vec<u8> = Vec::new();
    push_u32(&mut sot, table_len as u32);
    proof {
        let first = sot_entries(blobs).take(1);
        assert(blobs.take(0) =~= Seq::<Seq<u8>>::empty());
        assert(concat(blobs.take(0)).len() == 0);
        assert(first.drop_last() =~= Seq::<u32>::empty());
        assert(first.last() == table_len as u32);
        assert(u32s_bytes(first) == u32s_bytes(first.drop_last()) + u32_bytes(first.last()));
        assert(sot@ =~= u32s_bytes(first));
    }
    let mut i: u64 = 0;
    while i < count
        invariant
            table.wf(),
            data@ == file.contents@,
            len == data@.len(),
            len <= u32::MAX,
            512 <= sector_size <= 0x8000_0000,
            s == sector_size as nat,
            count == sector_count(len as nat, s),
            count == blobs.len(),
            table_len == 4 * (count + 1),
            count <= len,
            blobs == sector_blobs(data@, s, encryption_key, options.compress),
            i <= count,
            sectors@ == concat(blobs.take(i as int)),
            sectors@.len() <= i * sector_size,
            options.compress ==> sot@ == u32s_bytes(sot_entries(blobs).take(i + 1)),
            encryption_key == write_key(file.file_name@, data@, options, offset),
        decreases count - i,
    {
        let mut blob = encode_file_sector(table, data, sector_size, i, encryption_key, options.compress);
        proof {
            lemma_chunk_len(data@, s, i as nat);
            assert(blob@ == blobs[i as int]);
            lemma_concat_step(blobs, i as int);
            lemma_blob_len(data@, s, encryption_key, options.compress, i as nat);
        }
        sectors.append(&mut blob);
        assert(sectors@.len() <= i * sector_size + sector_size);
        if options.compress {
            let value = (table_len + sectors.len() as u64) as u32;
            proof {
                lemma_u32s_step(sot_entries(blobs), i + 1);
                assert(value == sot_entries(blobs)[i + 1]);
            }
            push_u32(&mut sot, value);
        }
        i = i + 1;
        proof {
            assert(sectors@.len() <= i * sector_size) by (nonlinear_arith)
                requires
                    sectors@.len() <= (i - 1) * sector_size + sector_size,
                    i >= 1;
        }
    }
    proof {
        assert(blobs.take(count as int) =~= blobs);
    }
    if options.compress {
        proof {
            assert(sot_entries(blobs).take(count + 1) =~= sot_entries(blobs));
        }
        if let Some(k) = encryption_key {
            encrypt_mpq_block(table, &mut sot, k.wrapping_add(0xFFFF_FFFF));
        }
        out.append(&mut sot);
    }
    out.append(&mut sectors);
    proof {
        assert(final(out)@ =~= old(out)@ + file_body(file.file_name@, file.contents@, file.options, offset, s));
    }
    ((file_start - archive_start) as u64, (out.len() - file_start) as u64)
}

proof fn lemma_blob_len(data: Seq<u8>, s: nat, key: Option<u32>, compress: bool, i: nat)
    requires
        s > 0,
        i < sector_count(data.len(), s),
    ensures
        sector_blobs(data, s, key, compress)[i as int].len() <= s,
{
    lemma_chunk_len(data, s, i);
    let chunk = sector_chunk(data, s, i);
    let k = shifted_key(key, i as u32);
    if compress {
        let packed = crate::compression::pack_sector(chunk);
        assert(packed.len() <= chunk.len());
        if let Some(kk) = k {
            lemma_cipher_len(packed, kk, KEY2_SEED, true);
        }
    } else {
        if let Some(kk) = k {
            lemma_cipher_len(chunk, kk, KEY2_SEED, true);
        }
    }
}

/// The slot after `i` in a table of `len` slots, wrapping to the first.
pub open spec fn following_slot(i: int, len: nat) -> int {
    if i + 1 >= len {
        0
    } else {
        i + 1
    }
}

/// The first blank slot at or after slot `i`, looking at no more than
/// `len - steps` slots, or `-1` where there is none.
pub open spec fn blank_from(t: Seq<HashEntry>, i: int, steps: nat) -> int
    decreases t.len() - steps,
{
    if steps >= t.len() || i < 0 || i >= t.len() {
        -1
    } else if t[i].block_index == HASH_TABLE_EMPTY_ENTRY {
        i
    } else {
        blank_from(t, following_slot(i, t.len()), steps + 1)
    }
}

/// The slot where a key with index hash `index` starts its probe in a table of `len` slots.
pub open spec fn home_slot(index: u32, len: nat) -> int {
    (index & ((len - 1) as u32)) as int
}

/// `t` with the entry of key `k` and block `j` put in the first blank slot
/// from the key's home slot on.
pub open spec fn insert_key(t: Seq<HashEntry>, k: (u32, u32, u32), j: u32) -> Seq<HashEntry> {
    let slot = blank_from(t, home_slot(k.2, t.len()), 0);
    if slot < 0 {
        t
    } else {
        t.update(slot, HashEntry { hash_a: k.0, hash_b: k.1, locale: 0, platform: 0, block_index: j })
    }
}

/// The hash table of `size` slots after the keys are inserted in order, key
/// `j` pointing at block `j`.
pub open spec fn build_hash_table(keys: Seq<(u32, u32, u32)>, size: nat) -> Seq<HashEntry>
    decreases keys.len(),
{
    if keys.len() == 0 {
        Seq::new(size, |i: int| blank_entry())
    } else {
        insert_key(build_hash_table(keys.drop_last(), size), keys.last(), (keys.len() - 1) as u32)
    }
}

/// The bytes of hash entries stored back to back.
pub open spec fn hash_entries_bytes(t: Seq<HashEntry>) -> Seq<u8>
    decreases t.len(),
{
    if t.len() == 0 {
        Seq::empty()
    } else {
        hash_entries_bytes(t.drop_last()) + hash_entry_bytes(t.last())
    }
}

/// The bytes of block entries stored back to back.
pub open spec fn block_entries_bytes(t: Seq<BlockEntry>) -> Seq<u8>
    decreases t.len(),
{
    if t.len() == 0 {
        Seq::empty()
    } else {
        block_entries_bytes(t.drop_last()) + block_entry_bytes(t.last())
    }
}

pub proof fn lemma_blank_from(t: Seq<HashEntry>, i: int, steps: nat)
    ensures
        blank_from(t, i, steps) == -1 || (0 <= blank_from(t, i, steps) < t.len()
            && t[blank_from(t, i, steps)].block_index == HASH_TABLE_EMPTY_ENTRY),
    decreases t.len() - steps,
{
    if !(steps >= t.len() || i < 0 || i >= t.len()) && t[i].block_index != HASH_TABLE_EMPTY_ENTRY {
        lemma_blank_from(t, following_slot(i, t.len()), steps + 1);
    }
}

proof fn lemma_build_len(keys: Seq<(u32, u32, u32)>, size: nat)
    ensures
        build_hash_table(keys, size).len() == size,
    decreases keys.len(),
{
    if keys.len() > 0 {
        lemma_build_len(keys.drop_last(), size);
        let t = build_hash_table(keys.drop_last(), size);
        lemma_blank_from(t, home_slot(keys.last().2, t.len()), 0);
    }
}

/// Finds the first blank slot at or after `start`.
fn find_blank(t: &Vec<HashEntry>, start: u32) -> (r: Option<u32>)
    requires
        0 < t@.len() <= 0x8000_0000,
        start < t@.len(),
    ensures
        blank_from(t@, start as int, 0) < 0 ==> r is None,
        blank_from(t@, start as int, 0) >= 0 ==> r == Some(blank_from(t@, start as int, 0) as u32),
{
    let size = t.len();
    let mut i: u32 = start;
    let mut steps: usize = 0;
    while steps < size
        invariant
            size == t@.len(),
            0 < size <= 0x8000_0000,
            i < size,
            steps <= size,
            blank_from(t@, start as int, 0) == blank_from(t@, i as int, steps as nat),
        decreases size - steps,
    {
        if t[i as usize].block_index == HASH_TABLE_EMPTY_ENTRY {
            return Some(i);
        }
        i = if i as usize + 1 >= size {
            0
        } else {
            i + 1
        };
        steps = steps + 1;
    }
    None
}

/// Builds the hash table of `size` slots for the keys in order, key `j`
/// pointing at block `j`, each in the first blank slot from its home slot on.
pub fn build_hash_entries(keys: &Vec<(u32, u32, u32)>, size: u32) -> (r: Vec<HashEntry>)
    requires
        0 < size <= 0x8000_0000,
        keys@.len() < size,
    ensures
        r@ == build_hash_table(keys@, size as nat),
{
    let mut t: Vec<HashEntry> = Vec::new();
    let mut n: u32 = 0;
    while n < size
        invariant
            n <= size,
            t@ == Seq::new(n as nat, |i: int| blank_entry()),
        decreases size - n,
    {
        t.push(HashEntry::blank());
        n = n + 1;
        proof {
            assert(t@ =~= Seq::new(n as nat, |i: int| blank_entry()));
        }
    }
    let mask = size - 1;
    let mut j: usize = 0;
    proof {
        assert(keys@.take(0) =~= Seq::<(u32, u32, u32)>::empty());
    }
    while j < keys.len()
        invariant
            0 < size <= 0x8000_0000,
            mask == size - 1,
            keys@.len() < size,
            j <= keys@.len(),
            t@ == build_hash_table(keys@.take(j as int), size as nat),
            t@.len() == size,
        decreases keys@.len() - j,
    {
        let (a, b, index) = keys[j];
        let home = index & mask;
        assert(home <= mask) by (bit_vector)
            requires
                home == index & mask,
        ;
        proof {
            assert(keys@.take(j + 1).drop_last() =~= keys@.take(j as int));
            assert(keys@.take(j + 1).last() == keys@[j as int]);
        }
        proof {
            lemma_blank_from(t@, home as int, 0);
        }
        match find_blank(&t, home) {
            Some(slot) => {
                t.set(slot as usize, HashEntry::new(a, b, j as u32));
            },
            None => {},
        }
        j = j + 1;
    }
    proof {
        assert(keys@.take(keys@.len() as int) =~= keys@);
    }
    t
}

/// Appends the hash entries, then encrypts what was appended with the hash table's key.
pub fn write_hashtable(table: &KeyTable, out: &mut Vec<u8>, entries: &Vec<HashEntry>)
    requires
        table.wf(),
    ensures
        final(out)@ == old(out)@ + encrypt_bytes(hash_entries_bytes(entries@), HASH_TABLE_KEY),
{
    let mut buf: Vec<u8> = Vec::new();
    let mut i: usize = 0;
    while i < entries.len()
        invariant
            i <= entries@.len(),
            buf@ == hash_entries_bytes(entries@.take(i as int)),
        decreases entries@.len() - i,
    {
        entries[i].write(&mut buf);
        proof {
            assert(entries@.take(i + 1).drop_last() =~= entries@.take(i as int));
        }
        i = i + 1;
    }
    proof {
        assert(entries@.take(i as int) =~= entries@);
    }
    encrypt_mpq_block(table, &mut buf, HASH_TABLE_KEY);
    out.append(&mut buf);
}

/// Appends the block entries, then encrypts what was appended with the block table's key.
pub fn write_blocktable(table: &KeyTable, out: &mut Vec<u8>, entries: &Vec<BlockEntry>)
    requires
        table.wf(),
    ensures
        final(out)@ == old(out)@ + encrypt_bytes(block_entries_bytes(entries@), BLOCK_TABLE_KEY),
{
    let mut buf: Vec<u8> = Vec::new();
    let mut i: usize = 0;
    while i < entries.len()
        invariant
            i <= entries@.len(),
            buf@ == block_entries_bytes(entries@.take(i as int)),
        decreases entries@.len() - i,
    {
        entries[i].write(&mut buf);
        proof {
            assert(entries@.take(i + 1).drop_last() =~= entries@.take(i as int));
        }
        i = i + 1;
    }
    proof {
        assert(entries@.take(i as int) =~= entries@);
    }
    encrypt_mpq_block(table, &mut buf, BLOCK_TABLE_KEY);
    out.append(&mut buf);
}

/// The list file of `files`: each name followed by CR LF.
pub open spec fn listfile_of(files: Seq<PendingView>) -> Seq<u8>
    decreases files.len(),
{
    if files.len() == 0 {
        Seq::empty()
    } else {
        listfile_of(files.drop_last()) + files.last().1.0 + seq![0x0Du8, 0x0Au8]
    }
}

/// The options of the list file.
pub open spec fn listfile_options() -> FileOptions {
    FileOptions { encrypt: true, compress: true, adjust_key: true }
}

/// `files` after an insertion of `(k, v)`: an existing key keeps its place
/// and takes the new value, a new key goes last.
pub open spec fn with_entry(files: Seq<PendingView>, k: (u32, u32, u32), v: (Seq<u8>, Seq<u8>, FileOptions)) -> Seq<PendingView> {
    if has_file_key(files, k) {
        let i = choose|i: int| 0 <= i < files.len() && #[trigger] files[i].0 == k;
        files.update(i, (k, v))
    } else {
        files.push((k, v))
    }
}

/// The stored forms of `files` back to back, the first at image position
/// `pos`, each keyed by its offset from `start`.
pub open spec fn bodies(files: Seq<PendingView>, start: nat, pos: nat, s: nat) -> Seq<u8>
    decreases files.len(),
{
    if files.len() == 0 {
        Seq::empty()
    } else {
        let prev = bodies(files.drop_last(), start, pos, s);
        let f = files.last();
        prev + file_body(f.1.0, f.1.1, f.1.2, (pos + prev.len() - start) as u32, s)
    }
}

/// The block entries of `files` stored as `bodies` lays them out.
pub open spec fn block_entries(files: Seq<PendingView>, start: nat, pos: nat, s: nat) -> Seq<BlockEntry>
    decreases files.len(),
{
    if files.len() == 0 {
        Seq::empty()
    } else {
        let prev = bodies(files.drop_last(), start, pos, s);
        let f = files.last();
        let offset = (pos + prev.len() - start) as u32;
        block_entries(files.drop_last(), start, pos, s).push(
            BlockEntry {
                file_pos: (pos + prev.len() - start) as u64,
                compressed_size: file_body(f.1.0, f.1.1, f.1.2, offset, s).len() as u64,
                uncompressed_size: f.1.1.len() as u64,
                flags: options_flags(f.1.2),
            },
        )
    }
}

/// The keys of `files`.
pub open spec fn keys_of(files: Seq<PendingView>) -> Seq<(u32, u32, u32)> {
    files.map_values(|f: PendingView| f.0)
}

/// The smallest power of two that is at least `c` times a power of two and
/// more than `n`.
pub open spec fn size_from(c: nat, n: nat) -> nat
    decreases n + 1 - c,
{
    if c > n || c == 0 {
        c
    } else if 2 * c > n {
        2 * c
    } else {
        size_from(2 * c, n)
    }
}

/// The number of hash table slots for `n` files: the smallest power of two
/// that is at least four and more than `n`, so that a slot stays blank.
pub open spec fn table_size_for(n: nat) -> nat {
    size_from(4, n)
}

/// `n` rounded up to a multiple of 512.
pub open spec fn padded_len(n: nat) -> nat {
    if n % 512 == 0 {
        n
    } else {
        (n + (512 - n % 512)) as nat
    }
}

/// Block-size exponent of the default sector size.
pub const DEFAULT_BLOCK_SIZE_EXPONENT: u16 = 7;

/// The header of an archive that starts at `start`, with its hash table at
/// `hash_pos`, its block table at `block_pos`, and its end at `end`.
pub open spec fn archive_header(start: nat, hash_pos: nat, block_pos: nat, end: nat, size: nat, n: nat) -> FileHeader {
    FileHeader {
        header_size: HEADER_MPQ_SIZE,
        archive_size: (end - start) as u32,
        format_version: 0,
        block_size: DEFAULT_BLOCK_SIZE_EXPONENT,
        hash_table_offset: (hash_pos - start) as u32,
        block_table_offset: (block_pos - start) as u32,
        hash_table_entries: size as u32,
        block_table_entries: n as u32,
    }
}

/// What writing `files` after the bytes `prefix` gives: zeros up to the next
/// multiple of 512, where the archive starts; its header; the files; the
/// encrypted hash table; the encrypted block table.
pub open spec fn archive_bytes(prefix: Seq<u8>, files: Seq<PendingView>) -> Seq<u8> {
    let s = DEFAULT_SECTOR_SIZE as nat;
    let start = padded_len(prefix.len());
    let body_pos = (start + HEADER_MPQ_SIZE) as nat;
    let body = bodies(files, start, body_pos, s);
    let hash_pos = (body_pos + body.len()) as nat;
    let size = table_size_for(files.len());
    let ht = encrypt_bytes(hash_entries_bytes(build_hash_table(keys_of(files), size)), HASH_TABLE_KEY);
    let block_pos = (hash_pos + ht.len()) as nat;
    let bt = encrypt_bytes(block_entries_bytes(block_entries(files, start, body_pos, s)), BLOCK_TABLE_KEY);
    let end = (block_pos + bt.len()) as nat;
    prefix + Seq::new((start - prefix.len()) as nat, |i: int| 0u8) + header_bytes(
        archive_header(start, hash_pos, block_pos, end, size, files.len()),
    ) + body + ht + bt
}

/// The number of hash table slots for `n` files.
fn hash_table_size(n: usize) -> (r: u32)
    requires
        n < 0x4000_0000,
    ensures
        r == table_size_for(n as nat),
        n < r <= 0x8000_0000,
{
    let mut size: u32 = 4;
    while (size as usize) <= n
        invariant
            n < 0x4000_0000,
            4 <= size,
            size <= 4 || size <= 2 * n,
            size_from(size as nat, n as nat) == table_size_for(n as nat),
        decreases 0x8000_0000 - size,
    {
        size = size * 2;
    }
    size
}

/// Overwrites the bytes at `pos` with `bytes`.
fn overwrite(out: &mut Vec<u8>, pos: usize, bytes: &Vec<u8>)
    requires
        pos + bytes@.len() <= old(out)@.len(),
    ensures
        final(out)@ == old(out)@.subrange(0, pos as int) + bytes@ + old(out)@.subrange(
            pos + bytes@.len(),
            old(out)@.len() as int,
        ),
{
    let total: usize = out.len();
    let mut i: usize = 0;
    while i < bytes.len()
        invariant
            total == old(out)@.len(),
            pos + bytes@.len() <= old(out)@.len(),
            out@.len() == old(out)@.len(),
            i <= bytes@.len(),
            out@ == old(out)@.subrange(0, pos as int) + bytes@.subrange(0, i as int) + old(out)@.subrange(
                pos + i,
                old(out)@.len() as int,
            ),
        decreases bytes@.len() - i,
    {
        out.set(pos + i, bytes[i]);
        i = i + 1;
        proof {
            assert(out@ =~= old(out)@.subrange(0, pos as int) + bytes@.subrange(0, i as int) + old(out)@.subrange(
                pos + i,
                old(out)@.len() as int,
            ));
        }
    }
    proof {
        assert(bytes@.subrange(0, i as int) =~= bytes@);
    }
}

/// Every file's contents fit the 32-bit sizes of the format.
pub open spec fn sizes_fit(files: Seq<PendingView>) -> bool {
    forall|i: int| 0 <= i < files.len() ==> #[trigger] files[i].1.1.len() <= u32::MAX
}

impl Creator {
    /// The list file of the files added so far.
    fn build_listfile(&self) -> (r: Vec<u8>)
        requires
            self.wf(),
        ensures
            r@ == listfile_of(self.pending()),
    {
        let ghost files = self.pending();
        let n = pending_len(&self.added_files);
        let mut out: Vec<u8> = Vec::new();
        let mut j: usize = 0;
        while j < n
            invariant
                files == self.pending(),
                n == files.len(),
                j <= n,
                out@ == listfile_of(files.take(j as int)),
            decreases n - j,
        {
            match pending_get(&self.added_files, j) {
                Some((_, record)) => {
                    let mut name = copy_bytes(record.file_name.as_slice());
                    out.append(&mut name);
                    out.push(0x0D);
                    out.push(0x0A);
                    proof {
                        assert(files.take(j + 1).drop_last() =~= files.take(j as int));
                        assert(files[j as int].1.0 == record.file_name@);
                        assert(out@ =~= listfile_of(files.take(j + 1)));
                    }
                },
                None => {},
            }
            j = j + 1;
        }
        proof {
            assert(files.take(n as int) =~= files);
        }
        out
    }

    /// Writes each pending file at the end of `out` and returns their block
    /// entries and their keys, in order.
    #[verifier::rlimit(60)]
    fn write_files(&self, out: &mut Vec<u8>, start: usize) -> (r: (Vec<BlockEntry>, Vec<(u32, u32, u32)>))
        requires
            self.wf(),
            start <= old(out)@.len(),
            sizes_fit(self.pending()),
        ensures
            final(out)@ == old(out)@ + bodies(self.pending(), start as nat, old(out)@.len(), DEFAULT_SECTOR_SIZE as nat),
            r.0@ == block_entries(self.pending(), start as nat, old(out)@.len(), DEFAULT_SECTOR_SIZE as nat),
            r.1@ == keys_of(self.pending()),
    {
        let ghost files = self.pending();
        let ghost base = out@;
        let ghost s = DEFAULT_SECTOR_SIZE as nat;
        let n = pending_len(&self.added_files);
        let mut blocks: Vec<BlockEntry> = Vec::new();
        let mut keys: Vec<(u32, u32, u32)> = Vec::new();
        let mut j: usize = 0;
        while j < n
            invariant
                self.wf(),
                files == self.pending(),
                sizes_fit(files),
                n == files.len(),
                j <= n,
                s == DEFAULT_SECTOR_SIZE as nat,
                start <= base.len(),
                out@ == base + bodies(files.take(j as int), start as nat, base.len(), s),
                blocks@ == block_entries(files.take(j as int), start as nat, base.len(), s),
                keys@ == keys_of(files).take(j as int),
            decreases n - j,
        {
            match pending_get(&self.added_files, j) {
                Some((k, record)) => {
                    let ghost prev = out@;
                    proof {
                        assert(files[j as int].1 == record_view(*record));
                        assert(files[j as int].1.1.len() <= u32::MAX);
                        assert(record.contents@.len() <= u32::MAX);
                    }
                    let (offset, size) = write_file(&self.key_table, DEFAULT_SECTOR_SIZE, start, out, record);
                    blocks.push(BlockEntry::new(offset, size, record.contents.len() as u64, record.options.flags()));
                    keys.push(*k);
                    proof {
                        let t = files.take(j + 1);
                        assert(t.drop_last() =~= files.take(j as int));
                        assert(t.last() == files[j as int]);
                        let pb = bodies(files.take(j as int), start as nat, base.len(), s);
                        assert(prev == base + pb);
                        let fb = file_body(record.file_name@, record.contents@, record.options, (prev.len() - start) as u32, s);
                        assert(out@ == prev + fb);
                        assert(bodies(t, start as nat, base.len(), s) == pb + fb);
                        assert(out@ =~= base + bodies(t, start as nat, base.len(), s));
                        assert(blocks@ =~= block_entries(t, start as nat, base.len(), s));
                        assert(keys@ =~= keys_of(files).take(j + 1));
                    }
                },
                None => {},
            }
            j = j + 1;
        }
        proof {
            assert(files.take(n as int) =~= files);
            assert(keys_of(files).take(n as int) =~= keys_of(files));
        }
        (blocks, keys)
    }
}

/// The value of the list file as a pending file.
pub open spec fn listfile_entry(files: Seq<PendingView>) -> (Seq<u8>, Seq<u8>, FileOptions) {
    (listfile_name(), listfile_of(files), listfile_options())
}

proof fn lemma_exp2_is_128(k: nat)
    requires
        512 * exp2(k) == 0x10000,
    ensures
        k == 7,
{
    reveal_with_fuel(exp2, 9);
    if k < 7 {
        lemma_exp2_monotone(k, 6);
    } else if k > 7 {
        lemma_exp2_monotone(8, k);
    }
}

impl Creator {
    /// Writes the archive after the bytes already in `out`: zeros up to the
    /// next multiple of 512, where the archive starts, then its header, every
    /// added file and a `(listfile)` of their names, the hash table and the
    /// block table. The `(listfile)` stays among the added files.
    #[verifier::rlimit(60)]
    pub fn write(&mut self, out: &mut Vec<u8>)
        requires
            old(self).wf(),
            sizes_fit(old(self).pending()),
            listfile_of(old(self).pending()).len() <= u32::MAX,
            old(self).pending().len() + 1 < 0x4000_0000,
        ensures
            final(self).wf(),
            final(self).pending() == with_entry(
                old(self).pending(),
                key_of(listfile_name()),
                listfile_entry(old(self).pending()),
            ),
            final(out)@ == archive_bytes(old(out)@, final(self).pending()),
    {
        let ghost files0 = self.pending();
        let ghost entries0 = pending_entries(self.added_files);
        let listfile = self.build_listfile();
        let name: Vec<u8> = vec![0x28u8, 0x6C, 0x69, 0x73, 0x74, 0x66, 0x69, 0x6C, 0x65, 0x29];
        proof {
            assert(name@ =~= listfile_name());
        }
        let key = FileKey::new(&self.key_table, name.as_slice());
        let k = (key.hash_a, key.hash_b, key.index);
        let record = FileRecord::new(name, listfile, FileOptions { encrypt: true, compress: true, adjust_key: true });
        let ghost rv = record_view(record);
        pending_insert(&mut self.added_files, k, record);
        proof {
            lemma_insert_view(entries0, pending_entries(self.added_files), k, record);
        }
        let ghost files = self.pending();
        proof {
            assert(rv == listfile_entry(files0));
            assert(files == with_entry(files0, k, rv));
            lemma_with_entry_fits(files0, k, rv);
        }
        while out.len() % 512 != 0
            invariant
                out@.len() >= old(out)@.len(),
                out@ == old(out)@ + Seq::new((out@.len() - old(out)@.len()) as nat, |i: int| 0u8),
                padded_len(old(out)@.len()) == padded_len(out@.len()),
                out@.len() <= padded_len(old(out)@.len()),
            decreases padded_len(old(out)@.len()) - out@.len(),
        {
            out.push(0);
            proof {
                assert(out@ =~= old(out)@ + Seq::new((out@.len() - old(out)@.len()) as nat, |i: int| 0u8));
            }
        }
        let start = out.len();
        let ghost padded = out@;
        let mut r: usize = 0;
        while r < 32
            invariant
                r <= 32,
                out@ == padded + Seq::new(r as nat, |i: int| 0u8),
            decreases 32 - r,
        {
            out.push(0);
            r = r + 1;
            proof {
                assert(out@ =~= padded + Seq::new(r as nat, |i: int| 0u8));
            }
        }
        let ghost reserved = out@;
        let (blocks, keys) = self.write_files(out, start);
        let n = blocks.len();
        proof {
            lemma_block_entries_len(files, start as nat, reserved.len(), DEFAULT_SECTOR_SIZE as nat);
        }
        let size = hash_table_size(n);
        let entries = build_hash_entries(&keys, size);
        let hash_pos = out.len();
        write_hashtable(&self.key_table, out, &entries);
        let block_pos = out.len();
        write_blocktable(&self.key_table, out, &blocks);
        let end = out.len();
        proof {
            reveal_with_fuel(exp2, 8);
            assert(512 * exp2(7) == 0x10000);
        }
        let header = FileHeader::new_v1(
            (end - start) as u32,
            DEFAULT_SECTOR_SIZE as u32,
            (hash_pos - start) as u32,
            (block_pos - start) as u32,
            size,
            n as u32,
        );
        proof {
            lemma_exp2_is_128(header.block_size as nat);
        }
        let mut header_buf: Vec<u8> = Vec::new();
        header.write(&mut header_buf);
        let ghost before = out@;
        overwrite(out, start, &header_buf);
        proof {
            let s = DEFAULT_SECTOR_SIZE as nat;
            let body = bodies(files, start as nat, (start + 32) as nat, s);
            assert(header == archive_header(start as nat, hash_pos as nat, block_pos as nat, end as nat, size as nat, files.len()));
            assert(start == padded_len(old(out)@.len()));
            assert(header_buf@.len() == 32);
            assert(before.subrange(0, start as int) =~= padded);
            assert(before.subrange(start + 32, before.len() as int) =~= body + encrypt_bytes(
                hash_entries_bytes(build_hash_table(keys_of(files), size as nat)),
                HASH_TABLE_KEY,
            ) + encrypt_bytes(block_entries_bytes(block_entries(files, start as nat, (start + 32) as nat, s)), BLOCK_TABLE_KEY));
            assert(final(out)@ =~= archive_bytes(old(out)@, files));
        }
    }
}

proof fn lemma_block_entries_len(files: Seq<PendingView>, start: nat, pos: nat, s: nat)
    ensures
        block_entries(files, start, pos, s).len() == files.len(),
    decreases files.len(),
{
    if files.len() > 0 {
        lemma_block_entries_len(files.drop_last(), start, pos, s);
    }
}

proof fn lemma_insert_view(
    before: Seq<((u32, u32, u32), FileRecord)>,
    after: Seq<((u32, u32, u32), FileRecord)>,
    k: (u32, u32, u32),
    v: FileRecord,
)
    requires
        keys_unique(before),
        !has_key(before, k) ==> after == before.push((k, v)),
        has_key(before, k) ==> exists|i: int| 0 <= i < before.len() && before[i].0 == k && after == before.update(i, (k, v)),
    ensures
        keys_unique(after),
        pending_view(after) == with_entry(pending_view(before), k, record_view(v)),
{
    lemma_has_key_view(before, k);
    if has_key(before, k) {
        let i = choose|i: int| 0 <= i < before.len() && before[i].0 == k && after == before.update(i, (k, v));
        let files = pending_view(before);
        let c = choose|c: int| 0 <= c < files.len() && #[trigger] files[c].0 == k;
        assert(files[c].0 == before[c].0);
        if c != i {
            if c < i {
                assert(before[c].0 != before[i].0);
            } else {
                assert(before[i].0 != before[c].0);
            }
        }
        assert(pending_view(after) =~= files.update(i, (k, record_view(v))));
        assert(keys_unique(after)) by {
            assert forall|a: int, b: int| 0 <= a < b < after.len() implies #[trigger] after[a].0 != #[trigger] after[b].0 by {
                assert(before[a].0 != before[b].0);
            }
        }
    } else {
        assert(pending_view(after) =~= pending_view(before).push((k, record_view(v))));
        assert(keys_unique(after)) by {
            assert forall|a: int, b: int| 0 <= a < b < after.len() implies #[trigger] after[a].0 != #[trigger] after[b].0 by {
                if b == after.len() - 1 {
                    assert(after[a] == before[a]);
                    assert(before[a].0 != k);
                } else {
                    assert(before[a].0 != before[b].0);
                }
            }
        }
    }
}

proof fn lemma_with_entry_fits(files: Seq<PendingView>, k: (u32, u32, u32), v: (Seq<u8>, Seq<u8>, FileOptions))
    requires
        sizes_fit(files),
        v.1.len() <= u32::MAX,
    ensures
        sizes_fit(with_entry(files, k, v)),
        with_entry(files, k, v).len() <= files.len() + 1,
{
    let w = with_entry(files, k, v);
    assert forall|i: int| 0 <= i < w.len() implies #[trigger] w[i].1.1.len() <= u32::MAX by {
        if has_file_key(files, k) {
            let c = choose|c: int| 0 <= c < files.len() && #[trigger] files[c].0 == k;
            if i != c {
                assert(files[i].1.1.len() <= u32::MAX);
            }
        } else if i < files.len() {
            assert(files[i].1.1.len() <= u32::MAX);
        }
    }
}

proof fn lemma_hash_entries_bytes_len(t: Seq<HashEntry>)
    ensures
        hash_entries_bytes(t).len() == 16 * t.len(),
    decreases t.len(),
{
    if t.len() > 0 {
        lemma_hash_entries_bytes_len(t.drop_last());
    }
}

proof fn lemma_block_entries_bytes_len(t: Seq<BlockEntry>)
    ensures
        block_entries_bytes(t).len() == 16 * t.len(),
    decreases t.len(),
{
    if t.len() > 0 {
        lemma_block_entries_bytes_len(t.drop_last());
    }
}

proof fn lemma_header_fields(image: Seq<u8>, at: int, h: FileHeader)
    requires
        0 <= at,
        at + 32 <= image.len(),
        image.subrange(at, at + 32) == header_bytes(h),
    ensures
        u32_at(image, at) == HEADER_MPQ_MAGIC,
        parse_header(image, at + 4) == Ok::<FileHeader, crate::error::Failure>(h) || h.format_version != 0,
        h.format_version == 0 ==> parse_header(image, at + 4) == Ok::<FileHeader, crate::error::Failure>(h),
{
    let b = header_bytes(h);
    lemma_le32_of_bytes(HEADER_MPQ_MAGIC);
    lemma_le32_of_bytes(h.header_size);
    lemma_le32_of_bytes(h.archive_size);
    lemma_le16_of_bytes(h.format_version);
    lemma_le16_of_bytes(h.block_size);
    lemma_le32_of_bytes(h.hash_table_offset);
    lemma_le32_of_bytes(h.block_table_offset);
    lemma_le32_of_bytes(h.hash_table_entries);
    lemma_le32_of_bytes(h.block_table_entries);
    assert(b.len() == 32);
    assert forall|k: int| 0 <= k < 32 implies image[at + k] == b[k] by {
        assert(image.subrange(at, at + 32)[k] == image[at + k]);
    }
    assert(u32_at(image, at) == u32_at(b, 0));
    assert(u32_at(image, at + 4) == u32_at(b, 4));
    assert(u32_at(image, at + 8) == u32_at(b, 8));
    assert(u16_at(image, at + 12) == u16_at(b, 12));
    assert(u16_at(image, at + 14) == u16_at(b, 14));
    assert(u32_at(image, at + 16) == u32_at(b, 16));
    assert(u32_at(image, at + 20) == u32_at(b, 20));
    assert(u32_at(image, at + 24) == u32_at(b, 24));
    assert(u32_at(image, at + 28) == u32_at(b, 28));
    assert(u32_at(b, 0) == HEADER_MPQ_MAGIC);
    assert(u32_at(b, 4) == h.header_size);
    assert(u32_at(b, 8) == h.archive_size);
    assert(u16_at(b, 12) == h.format_version);
    assert(u16_at(b, 14) == h.block_size);
    assert(u32_at(b, 16) == h.hash_table_offset);
    assert(u32_at(b, 20) == h.block_table_offset);
    assert(u32_at(b, 24) == h.hash_table_entries);
    assert(u32_at(b, 28) == h.block_table_entries);
}

#[verifier::rlimit(80)]
/// In a written archive the header, found at the archive's start, counts
/// exactly the entries of the hash table and of the block table that follow
/// the files, places them where they stand, and gives as the archive's size
/// its end minus its start.
pub proof fn lemma_written_header(prefix: Seq<u8>, files: Seq<PendingView>)
    requires
        archive_bytes(prefix, files).len() <= u32::MAX,
        files.len() < 0x4000_0000,
    ensures
        ({
            let image = archive_bytes(prefix, files);
            let start = padded_len(prefix.len());
            let s = DEFAULT_SECTOR_SIZE as nat;
            let hashes = build_hash_table(keys_of(files), table_size_for(files.len()));
            let blocks = block_entries(files, start, (start + HEADER_MPQ_SIZE) as nat, s);
            &&& u32_at(image, start as int) == HEADER_MPQ_MAGIC
            &&& parse_header(image, start as int + 4) matches Ok(h)
            &&& h.hash_table_entries == hashes.len()
            &&& h.block_table_entries == blocks.len()
            &&& h.block_table_entries == files.len()
            &&& h.hash_table_offset + 16 * hashes.len() == h.block_table_offset
            &&& h.block_table_offset + 16 * blocks.len() == h.archive_size
            &&& h.archive_size == image.len() - start
        }),
{
    let image = archive_bytes(prefix, files);
    let s = DEFAULT_SECTOR_SIZE as nat;
    let start = padded_len(prefix.len());
    assert(start >= prefix.len()) by {
        assert(prefix.len() % 512 < 512);
    }
    let body_pos = (start + HEADER_MPQ_SIZE) as nat;
    let body = bodies(files, start, body_pos, s);
    let hash_pos = (body_pos + body.len()) as nat;
    let size = table_size_for(files.len());
    let hashes = build_hash_table(keys_of(files), size);
    let blocks = block_entries(files, start, body_pos, s);
    lemma_build_len(keys_of(files), size);
    lemma_block_entries_len(files, start, body_pos, s);
    lemma_hash_entries_bytes_len(hashes);
    lemma_block_entries_bytes_len(blocks);
    lemma_cipher_len(hash_entries_bytes(hashes), HASH_TABLE_KEY, KEY2_SEED, true);
    lemma_cipher_len(block_entries_bytes(blocks), BLOCK_TABLE_KEY, KEY2_SEED, true);
    let ht = encrypt_bytes(hash_entries_bytes(hashes), HASH_TABLE_KEY);
    let bt = encrypt_bytes(block_entries_bytes(blocks), BLOCK_TABLE_KEY);
    let block_pos = (hash_pos + ht.len()) as nat;
    let end = (block_pos + bt.len()) as nat;
    let h = archive_header(start, hash_pos, block_pos, end, size, files.len());
    let pad = Seq::new((start - prefix.len()) as nat, |i: int| 0u8);
    assert(header_bytes(h).len() == 32);
    assert(image == prefix + pad + header_bytes(h) + body + ht + bt);
    assert(image.len() == end);
    assert(image.subrange(start as int, start as int + 32) =~= header_bytes(h));
    lemma_header_fields(image, start as int, h);
    lemma_table_size_bound(files.len());
}

/// The number of slots for `n` files is a power of two, at least four, more
/// than `n`: the table always keeps a blank slot.
pub proof fn lemma_table_size_bound(n: nat)
    requires
        n < 0x4000_0000,
    ensures
        n < table_size_for(n) <= 0x8000_0000,
        4 <= table_size_for(n),
{
    lemma_size_from(4, n);
}

proof fn lemma_size_from(c: nat, n: nat)
    requires
        1 <= c,
        n < 0x4000_0000,
        c <= 4 || c <= 2 * n,
    ensures
        n < size_from(c, n),
        c <= size_from(c, n),
        size_from(c, n) <= 0x8000_0000,
    decreases n + 1 - c,
{
    if c <= n && 2 * c <= n {
        lemma_size_from(2 * c, n);
    }
}

} // verus!
