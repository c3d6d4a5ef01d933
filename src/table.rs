//! The hash table, the block table and the sector offset table.
use vstd::prelude::*;
use crate::bytes::{u16_at, u32_at, u16_bytes, u32_bytes, read_u16, read_u32, push_u16, push_u32};
use crate::crypto::{KeyTable, decrypt_bytes, decrypt_mpq_block, name_hash, hash_string, HASH_NAME_A, HASH_NAME_B, HASH_TABLE_INDEX};
use crate::error::{Error, Failure};
use crate::seeker::{MpqSeeker, ArchiveInfo, read_at};

verus! {

/// `hash("(hash table)", 0x300)`, the key of the hash table.
pub const HASH_TABLE_KEY: u32 = 0xC3AF_3770;

/// `hash("(block table)", 0x300)`, the key of the block table.
pub const BLOCK_TABLE_KEY: u32 = 0xEC83_B3A3;

/// The block index of a hash entry that was never used.
pub const HASH_TABLE_EMPTY_ENTRY: u32 = 0xFFFF_FFFF;

/// Block flag: the file is imploded.
pub const MPQ_FILE_IMPLODE: u32 = 0x0000_0100;

/// Block flag: the file is compressed sector by sector.
pub const MPQ_FILE_COMPRESS: u32 = 0x0000_0200;

/// Block flag: the file is encrypted.
pub const MPQ_FILE_ENCRYPTED: u32 = 0x0001_0000;

/// Block flag: the file's key is adjusted by its offset and size.
pub const MPQ_FILE_ADJUST_KEY: u32 = 0x0002_0000;

/// Block flag: the file is stored as a single unit.
pub const MPQ_FILE_SINGLE_UNIT: u32 = 0x0100_0000;

/// Block flag: the entry is in use.
pub const MPQ_FILE_EXISTS: u32 = 0x8000_0000;

/// One entry of the hash table.
#[derive(Debug, Clone, Copy, PartialEq, Eq, Structural)]
pub struct HashEntry {
    pub hash_a: u32,
    pub hash_b: u32,
    pub locale: u16,
    pub platform: u16,
    pub block_index: u32,
}

/// The hash entry stored at `pos` in `s`.
pub open spec fn hash_entry_at(s: Seq<u8>, pos: int) -> HashEntry {
    HashEntry {
        hash_a: u32_at(s, pos),
        hash_b: u32_at(s, pos + 4),
        locale: u16_at(s, pos + 8),
        platform: u16_at(s, pos + 10),
        block_index: u32_at(s, pos + 12),
    }
}

/// The sixteen bytes of a hash entry.
pub open spec fn hash_entry_bytes(e: HashEntry) -> Seq<u8> {
    u32_bytes(e.hash_a) + u32_bytes(e.hash_b) + u16_bytes(e.locale) + u16_bytes(e.platform)
        + u32_bytes(e.block_index)
}

/// A blank hash entry.
pub open spec fn blank_entry() -> HashEntry {
    HashEntry {
        hash_a: 0xFFFF_FFFF,
        hash_b: 0xFFFF_FFFF,
        locale: 0xFFFF,
        platform: 0x00FF,
        block_index: HASH_TABLE_EMPTY_ENTRY,
    }
}

/// An entry at which a lookup stops: it was never used.
pub open spec fn is_terminator(e: HashEntry) -> bool {
    e.block_index == HASH_TABLE_EMPTY_ENTRY && e.hash_a == 0xFFFF_FFFF
}

impl HashEntry {
    /// An entry for the name with hashes `hash_a` and `hash_b`, neutral
    /// locale and platform, pointing at block `block_index`.
    pub fn new(hash_a: u32, hash_b: u32, block_index: u32) -> (r: HashEntry)
        ensures
            r == (HashEntry { hash_a, hash_b, locale: 0, platform: 0, block_index }),
    {
        HashEntry { hash_a, hash_b, locale: 0, platform: 0, block_index }
    }

    /// Reads the entry stored at `pos`.
    pub fn from_reader(data: &[u8], pos: usize) -> (r: HashEntry)
        requires
            pos + 16 <= data@.len(),
        ensures
            r == hash_entry_at(data@, pos as int),
    {
        let n = data.len();
        assert(pos + 16 <= n);
        HashEntry {
            hash_a: read_u32(data, pos),
            hash_b: read_u32(data, pos + 4),
            locale: read_u16(data, pos + 8),
            platform: read_u16(data, pos + 10),
            block_index: read_u32(data, pos + 12),
        }
    }

    /// A blank entry.
    pub fn blank() -> (r: HashEntry)
        ensures
            r == blank_entry(),
    {
        HashEntry {
            hash_a: 0xFFFF_FFFF,
            hash_b: 0xFFFF_FFFF,
            locale: 0xFFFF,
            platform: 0x00FF,
            block_index: HASH_TABLE_EMPTY_ENTRY,
        }
    }

    /// Whether the entry holds no file.
    pub fn is_blank(&self) -> (r: bool)
        ensures
            r == (self.block_index == HASH_TABLE_EMPTY_ENTRY),
    {
        self.block_index == HASH_TABLE_EMPTY_ENTRY
    }

    /// Appends the entry's sixteen bytes.
    pub fn write(&self, out: &mut Vec<u8>)
        ensures
            final(out)@ == old(out)@ + hash_entry_bytes(*self),
    {
        push_u32(out, self.hash_a);
        push_u32(out, self.hash_b);
        push_u16(out, self.locale);
        push_u16(out, self.platform);
        push_u32(out, self.block_index);
        proof {
            assert(final(out)@ =~= old(out)@ + hash_entry_bytes(*self));
        }
    }
}

/// The `n` hash entries stored back to back in `s`.
pub open spec fn parse_hash_entries(s: Seq<u8>, n: nat) -> Seq<HashEntry> {
    Seq::new(n, |i: int| hash_entry_at(s, 16 * i))
}

/// Next slot of a probe in a table of `len` slots.
pub open spec fn next_slot(i: u32, len: nat) -> u32 {
    ((i + 1) as u32) & ((len - 1) as u32)
}

/// The slot that a lookup of the hashes `(a, b)` returns, probing from slot
/// `i` after `steps` slots: a terminator ends it, an entry with both hashes
/// and the neutral locale is found, and at most every slot is visited once.
pub open spec fn probe(entries: Seq<HashEntry>, a: u32, b: u32, i: u32, steps: nat) -> Option<u32>
    decreases entries.len() - steps,
{
    if steps >= entries.len() || i >= entries.len() {
        None
    } else if is_terminator(entries[i as int]) {
        None
    } else if entries[i as int].hash_a == a && entries[i as int].hash_b == b
        && entries[i as int].locale == 0 {
        Some(i)
    } else {
        probe(entries, a, b, next_slot(i, entries.len()), steps + 1)
    }
}

/// The slot where a lookup of `name` ends, if any.
pub open spec fn find_slot(entries: Seq<HashEntry>, name: Seq<u8>) -> Option<u32> {
    if entries.len() == 0 {
        None
    } else {
        probe(
            entries,
            name_hash(name, HASH_NAME_A),
            name_hash(name, HASH_NAME_B),
            name_hash(name, HASH_TABLE_INDEX) & ((entries.len() - 1) as u32),
            0,
        )
    }
}

/// The hash table of an opened archive.
pub struct FileHashTable {
    pub entries: Vec<HashEntry>,
}

/// The hash table that the archive in `data` holds, or why it cannot be read.
pub open spec fn hash_table_in(data: Seq<u8>, info: ArchiveInfo) -> Result<Seq<HashEntry>, Failure> {
    let t = info.hash_table_info;
    if t.entries == 0 {
        Err(Failure::Corrupted)
    } else {
        match read_at(data, info, t.offset, t.size) {
            Ok(raw) => Ok(parse_hash_entries(decrypt_bytes(raw, HASH_TABLE_KEY), t.entries as nat)),
            Err(e) => Err(e),
        }
    }
}

proof fn lemma_mask_bound(x: u32, m: u32)
    ensures
        x & m <= m,
{
    assert(x & m <= m) by (bit_vector);
}

impl FileHashTable {
    /// Reads and decrypts the hash table.
    pub fn from_seeker(table: &KeyTable, seeker: &MpqSeeker) -> (r: Result<FileHashTable, Error>)
        requires
            table.wf(),
            seeker.wf(),
            seeker.archive_info.hash_table_info.entries <= u32::MAX,
            seeker.archive_info.hash_table_info.size == 16 * seeker.archive_info.hash_table_info.entries,
        ensures
            match r {
                Ok(t) => hash_table_in(seeker.data@, seeker.archive_info) == Ok::<Seq<HashEntry>, Failure>(t.entries@)
                    && 0 < t.entries@.len() <= u32::MAX,
                Err(e) => hash_table_in(seeker.data@, seeker.archive_info) == Err::<Seq<HashEntry>, Failure>(e@),
            },
    {
        let info = seeker.info().hash_table_info;
        if info.entries == 0 {
            return Err(Error::Corrupted);
        }
        let mut raw = match seeker.read(info.offset, info.size) {
            Ok(raw) => raw,
            Err(e) => {
                return Err(e);
            },
        };
        decrypt_mpq_block(table, &mut raw, HASH_TABLE_KEY);
        proof {
            crate::crypto::lemma_cipher_len(seeker.data@.subrange(
                (seeker.archive_info.header_offset + info.offset) as int,
                (seeker.archive_info.header_offset + info.offset + info.size) as int,
            ), HASH_TABLE_KEY, crate::crypto::KEY2_SEED, false);
        }
        let ghost dec = raw@;
        let n = info.entries as usize;
        let total: usize = raw.len();
        let mut entries: Vec<HashEntry> = Vec::new();
        let mut i: usize = 0;
        while i < n
            invariant
                raw@ == dec,
                total == dec.len(),
                dec.len() == 16 * n,
                i <= n,
                entries@ == parse_hash_entries(dec, n as nat).subrange(0, i as int),
            decreases n - i,
        {
            entries.push(HashEntry::from_reader(raw.as_slice(), i * 16));
            i = i + 1;
            proof {
                assert(entries@ =~= parse_hash_entries(dec, n as nat).subrange(0, i as int));
            }
        }
        proof {
            assert(entries@ =~= parse_hash_entries(dec, n as nat));
        }
        Ok(FileHashTable { entries })
    }

    /// Finds the entry of `name` by probing from the slot its index hash selects.
    pub fn find_entry(&self, table: &KeyTable, name: &[u8]) -> (r: Option<&HashEntry>)
        requires
            table.wf(),
            0 < self.entries@.len() <= u32::MAX,
        ensures
            match find_slot(self.entries@, name@) {
                Some(i) => r == Some(&self.entries@[i as int]),
                None => r is None,
            },
    {
        let len = self.entries.len();
        let mask = (len - 1) as u32;
        let part_a = hash_string(table, name, HASH_NAME_A);
        let part_b = hash_string(table, name, HASH_NAME_B);
        let start = hash_string(table, name, HASH_TABLE_INDEX) & mask;
        proof {
            lemma_mask_bound(name_hash(name@, HASH_TABLE_INDEX), mask);
        }
        let mut index: u32 = start;
        let mut steps: usize = 0;
        while steps < len
            invariant
                len == self.entries@.len(),
                0 < len <= u32::MAX,
                mask == (len - 1) as u32,
                index <= mask,
                steps <= len,
                find_slot(self.entries@, name@) == probe(self.entries@, part_a, part_b, index, steps as nat),
            decreases len - steps,
        {
            let inspected = &self.entries[index as usize];
            if inspected.block_index == HASH_TABLE_EMPTY_ENTRY && inspected.hash_a == 0xFFFF_FFFF {
                return None;
            }
            if inspected.hash_a == part_a && inspected.hash_b == part_b && inspected.locale == 0 {
                return Some(inspected);
            }
            proof {
                lemma_mask_bound((index + 1) as u32, mask);
            }
            index = (index + 1) & mask;
            steps = steps + 1;
        }
        None
    }
}

/// One entry of the block table.
#[derive(Debug, Clone, Copy, PartialEq, Eq, Structural)]
pub struct BlockEntry {
    pub file_pos: u64,
    pub compressed_size: u64,
    pub uncompressed_size: u64,
    pub flags: u32,
}

/// The block entry stored at `pos` in `s`.
pub open spec fn block_entry_at(s: Seq<u8>, pos: int) -> BlockEntry {
    BlockEntry {
        file_pos: u32_at(s, pos) as u64,
        compressed_size: u32_at(s, pos + 4) as u64,
        uncompressed_size: u32_at(s, pos + 8) as u64,
        flags: u32_at(s, pos + 12),
    }
}

/// The sixteen bytes of a block entry; positions and sizes are stored in 32 bits.
pub open spec fn block_entry_bytes(e: BlockEntry) -> Seq<u8> {
    u32_bytes(e.file_pos as u32) + u32_bytes(e.compressed_size as u32) + u32_bytes(
        e.uncompressed_size as u32,
    ) + u32_bytes(e.flags)
}

impl BlockEntry {
    /// An entry for a file stored at `file_pos` with the given sizes and flags.
    pub fn new(file_pos: u64, compressed_size: u64, uncompressed_size: u64, flags: u32) -> (r:
        BlockEntry)
        ensures
            r == (BlockEntry { file_pos, compressed_size, uncompressed_size, flags }),
    {
        BlockEntry { file_pos, compressed_size, uncompressed_size, flags }
    }

    /// Reads the entry stored at `pos`.
    pub fn from_reader(data: &[u8], pos: usize) -> (r: BlockEntry)
        requires
            pos + 16 <= data@.len(),
        ensures
            r == block_entry_at(data@, pos as int),
    {
        let n = data.len();
        assert(pos + 16 <= n);
        BlockEntry {
            file_pos: read_u32(data, pos) as u64,
            compressed_size: read_u32(data, pos + 4) as u64,
            uncompressed_size: read_u32(data, pos + 8) as u64,
            flags: read_u32(data, pos + 12),
        }
    }

    /// Appends the entry's sixteen bytes.
    pub fn write(&self, out: &mut Vec<u8>)
        ensures
            final(out)@ == old(out)@ + block_entry_bytes(*self),
    {
        push_u32(out, self.file_pos as u32);
        push_u32(out, self.compressed_size as u32);
        push_u32(out, self.uncompressed_size as u32);
        push_u32(out, self.flags);
        proof {
            assert(final(out)@ =~= old(out)@ + block_entry_bytes(*self));
        }
    }

    /// Whether the file is imploded.
    pub fn is_imploded(&self) -> (r: bool)
        ensures
            r == (self.flags & MPQ_FILE_IMPLODE != 0),
    {
        (self.flags & MPQ_FILE_IMPLODE) != 0
    }

    /// Whether the file is compressed sector by sector.
    pub fn is_compressed(&self) -> (r: bool)
        ensures
            r == (self.flags & MPQ_FILE_COMPRESS != 0),
    {
        (self.flags & MPQ_FILE_COMPRESS) != 0
    }

    /// Whether the file is encrypted.
    pub fn is_encrypted(&self) -> (r: bool)
        ensures
            r == (self.flags & MPQ_FILE_ENCRYPTED != 0),
    {
        (self.flags & MPQ_FILE_ENCRYPTED) != 0
    }

    /// Whether the file's key is adjusted.
    pub fn is_key_adjusted(&self) -> (r: bool)
        ensures
            r == (self.flags & MPQ_FILE_ADJUST_KEY != 0),
    {
        (self.flags & MPQ_FILE_ADJUST_KEY) != 0
    }
}

/// The `n` block entries stored back to back in `s`.
pub open spec fn parse_block_entries(s: Seq<u8>, n: nat) -> Seq<BlockEntry> {
    Seq::new(n, |i: int| block_entry_at(s, 16 * i))
}

/// The block table that the archive in `data` holds, or why it cannot be read.
#[verifier::opaque]
pub open spec fn block_table_in(data: Seq<u8>, info: ArchiveInfo) -> Result<Seq<BlockEntry>, Failure> {
    let t = info.block_table_info;
    match read_at(data, info, t.offset, t.size) {
        Ok(raw) => Ok(parse_block_entries(decrypt_bytes(raw, BLOCK_TABLE_KEY), t.entries as nat)),
        Err(e) => Err(e),
    }
}

/// The block table of an opened archive.
pub struct FileBlockTable {
    pub entries: Vec<BlockEntry>,
}

impl FileBlockTable {
    /// Reads and decrypts the block table.
    pub fn from_seeker(table: &KeyTable, seeker: &MpqSeeker) -> (r: Result<FileBlockTable, Error>)
        requires
            table.wf(),
            seeker.wf(),
            seeker.archive_info.block_table_info.entries <= u32::MAX,
            seeker.archive_info.block_table_info.size == 16 * seeker.archive_info.block_table_info.entries,
        ensures
            match r {
                Ok(t) => block_table_in(seeker.data@, seeker.archive_info) == Ok::<Seq<BlockEntry>, Failure>(t.entries@),
                Err(e) => block_table_in(seeker.data@, seeker.archive_info) == Err::<Seq<BlockEntry>, Failure>(e@),
            },
    {
        reveal(block_table_in);
        let info = seeker.info().block_table_info;
        let mut raw = match seeker.read(info.offset, info.size) {
            Ok(raw) => raw,
            Err(e) => {
                return Err(e);
            },
        };
        decrypt_mpq_block(table, &mut raw, BLOCK_TABLE_KEY);
        proof {
            crate::crypto::lemma_cipher_len(seeker.data@.subrange(
                (seeker.archive_info.header_offset + info.offset) as int,
                (seeker.archive_info.header_offset + info.offset + info.size) as int,
            ), BLOCK_TABLE_KEY, crate::crypto::KEY2_SEED, false);
        }
        let ghost dec = raw@;
        let n = info.entries as usize;
        let total: usize = raw.len();
        let mut entries: Vec<BlockEntry> = Vec::new();
        let mut i: usize = 0;
        while i < n
            invariant
                raw@ == dec,
                total == dec.len(),
                dec.len() == 16 * n,
                i <= n,
                entries@ == parse_block_entries(dec, n as nat).subrange(0, i as int),
            decreases n - i,
        {
            entries.push(BlockEntry::from_reader(raw.as_slice(), i * 16));
            i = i + 1;
            proof {
                assert(entries@ =~= parse_block_entries(dec, n as nat).subrange(0, i as int));
            }
        }
        proof {
            assert(entries@ =~= parse_block_entries(dec, n as nat));
        }
        Ok(FileBlockTable { entries })
    }

    /// The entry at `index`, if there is one.
    pub fn get(&self, index: usize) -> (r: Option<&BlockEntry>)
        ensures
            index < self.entries@.len() ==> r == Some(&self.entries@[index as int]),
            index >= self.entries@.len() ==> r is None,
    {
        if index < self.entries.len() {
            Some(&self.entries[index])
        } else {
            None
        }
    }
}

/// The number of sectors of `sector_size` bytes that hold `size` bytes.
pub open spec fn sector_count(size: nat, sector_size: nat) -> nat {
    if size == 0 {
        0
    } else {
        ((size - 1) as nat / sector_size + 1) as nat
    }
}

/// The number of sectors of `sector_size` bytes that hold `size` bytes;
/// an empty file has none.
pub fn sector_count_from_size(size: u64, sector_size: u64) -> (r: u64)
    requires
        sector_size > 0,
    ensures
        r == sector_count(size as nat, sector_size as nat),
{
    if size == 0 {
        0
    } else {
        (size - 1) / sector_size + 1
    }
}

/// Each offset is at most the next.
pub open spec fn is_monotone(offsets: Seq<u32>) -> bool {
    forall|i: int| 0 <= i < offsets.len() - 1 ==> #[trigger] offsets[i] <= offsets[i + 1]
}

/// The `n` little-endian offsets stored back to back in `s`.
pub open spec fn parse_offsets(s: Seq<u8>, n: nat) -> Seq<u32> {
    Seq::new(n, |i: int| u32_at(s, 4 * i))
}

/// The sector offset table of the compressed file `entry`, decrypted with
/// `key` where one is given, or why it cannot be read.
#[verifier::opaque]
pub open spec fn sector_offsets_in(
    data: Seq<u8>,
    info: ArchiveInfo,
    entry: BlockEntry,
    key: Option<u32>,
) -> Result<Seq<u32>, Failure> {
    let n = sector_count(entry.uncompressed_size as nat, info.sector_size as nat) + 1;
    match read_at(data, info, entry.file_pos, (4 * n) as u64) {
        Ok(raw) => {
            let dec = match key {
                Some(k) => decrypt_bytes(raw, k),
                None => raw,
            };
            let offsets = parse_offsets(dec, n);
            if is_monotone(offsets) {
                Ok(offsets)
            } else {
                Err(Failure::Corrupted)
            }
        },
        Err(e) => Err(e),
    }
}

/// The sector offset table of one file: where each sector starts, and where
/// the last one ends, relative to the file's start.
pub struct SectorOffsets {
    pub offsets: Vec<u32>,
}

impl SectorOffsets {
    /// There is at least one offset and they never decrease.
    pub open spec fn wf(&self) -> bool {
        self.offsets@.len() >= 1 && is_monotone(self.offsets@)
    }

    /// Reads the sector offset table of `block_entry`, decrypting it with
    /// `encryption_key` where one is given.
    #[verifier::loop_isolation(false)]
    pub fn from_reader(
        table: &KeyTable,
        seeker: &MpqSeeker,
        block_entry: &BlockEntry,
        encryption_key: Option<u32>,
    ) -> (r: Result<SectorOffsets, Error>)
        requires
            table.wf(),
            seeker.wf(),
            seeker.archive_info.sector_size > 0,
            block_entry.uncompressed_size <= u32::MAX,
        ensures
            match r {
                Ok(s) => s.wf() && sector_offsets_in(seeker.data@, seeker.archive_info, *block_entry, encryption_key)
                    == Ok::<Seq<u32>, Failure>(s.offsets@) && s.offsets@.len() == sector_count(
                    block_entry.uncompressed_size as nat,
                    seeker.archive_info.sector_size as nat,
                ) + 1,
                Err(e) => sector_offsets_in(seeker.data@, seeker.archive_info, *block_entry, encryption_key)
                    == Err::<Seq<u32>, Failure>(e@),
            },
    {
        reveal(sector_offsets_in);
        let count = sector_count_from_size(block_entry.uncompressed_size, seeker.info().sector_size);
        proof {
            assert(count <= block_entry.uncompressed_size) by (nonlinear_arith)
                requires
                    count == sector_count(block_entry.uncompressed_size as nat, seeker.archive_info.sector_size as nat),
                    seeker.archive_info.sector_size > 0,
            {
                if block_entry.uncompressed_size > 0 {
                    assert((block_entry.uncompressed_size - 1) as nat / (seeker.archive_info.sector_size as nat)
                        <= (block_entry.uncompressed_size - 1) as nat);
                }
            }
        }
        let n = count + 1;
        let mut raw = match seeker.read(block_entry.file_pos, n * 4) {
            Ok(raw) => raw,
            Err(e) => {
                return Err(e);
            },
        };
        let ghost raw0 = raw@;
        if let Some(key) = encryption_key {
            decrypt_mpq_block(table, &mut raw, key);
            proof {
                crate::crypto::lemma_cipher_len(raw0, key, crate::crypto::KEY2_SEED, false);
            }
        }
        let ghost dec = raw@;
        let total: usize = raw.len();
        let mut offsets: Vec<u32> = Vec::new();
        let mut i: usize = 0;
        while i < n as usize
            invariant
                raw@ == dec,
                total == dec.len(),
                dec.len() == 4 * n,
                i <= n,
                offsets@ == parse_offsets(dec, n as nat).subrange(0, i as int),
            decreases n - i,
        {
            offsets.push(read_u32(raw.as_slice(), i * 4));
            i = i + 1;
            proof {
                assert(offsets@ =~= parse_offsets(dec, n as nat).subrange(0, i as int));
            }
        }
        proof {
            assert(offsets@ =~= parse_offsets(dec, n as nat));
        }
        let mut j: usize = 0;
        let last: usize = offsets.len() - 1;
        while j < last
            invariant
                offsets@.len() == n,
                last == n - 1,
                j <= last,
                n >= 1,
                forall|k: int| 0 <= k < j ==> #[trigger] offsets@[k] <= offsets@[k + 1],
            decreases offsets@.len() - j,
        {
            if offsets[j] > offsets[j + 1] {
                proof {
                    assert(!is_monotone(offsets@));
                }
                return Err(Error::Corrupted);
            }
            j = j + 1;
        }
        Ok(SectorOffsets { offsets })
    }

    /// Start and size of sector `index`, if there is such a sector.
    pub fn one(&self, index: usize) -> (r: Option<(u32, u32)>)
        requires
            self.wf(),
        ensures
            index < self.offsets@.len() - 1 ==> r == Some(
                (self.offsets@[index as int], (self.offsets@[index + 1] - self.offsets@[index as int]) as u32),
            ),
            index >= self.offsets@.len() - 1 ==> r is None,
    {
        if index >= self.offsets.len() - 1 {
            None
        } else {
            Some((self.offsets[index], self.offsets[index + 1] - self.offsets[index]))
        }
    }

    /// Start of the first sector and size of all sectors together.
    pub fn all(&self) -> (r: (u32, u32))
        requires
            self.wf(),
        ensures
            r == (self.offsets@[0], (self.offsets@.last() - self.offsets@[0]) as u32),
    {
        let len = self.offsets.len();
        proof {
            lemma_monotone_span(self.offsets@, 0, len - 1);
        }
        (self.offsets[0], self.offsets[len - 1] - self.offsets[0])
    }

    /// The number of sectors.
    pub fn count(&self) -> (r: usize)
        requires
            self.wf(),
        ensures
            r == self.offsets@.len() - 1,
    {
        self.offsets.len() - 1
    }
}

/// In a monotone sequence a later offset is at least an earlier one.
pub proof fn lemma_monotone_span(offsets: Seq<u32>, i: int, j: int)
    requires
        is_monotone(offsets),
        0 <= i <= j < offsets.len(),
    ensures
        offsets[i] <= offsets[j],
    decreases j - i,
{
    if i < j {
        lemma_monotone_span(offsets, i, j - 1);
    }
}

} // verus!
