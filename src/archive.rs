//! The archive reader.
use vstd::prelude::*;
use vstd::utf8::{valid_utf8, decode_utf8};
use vstd::string::StringSliceAdditionalSpecFns;
use crate::compression::{decode_sector, decode_mpq_block};
use crate::crypto::{KeyTable, file_key, calculate_file_key, wadd, fold_name, lemma_name_hash_fold, lemma_file_key_fold, HASH_NAME_A, HASH_NAME_B, HASH_TABLE_INDEX};
use crate::error::{Error, Failure, bytes_result};
use crate::seeker::{ArchiveInfo, MpqSeeker, archive_info_in, read_at};
use crate::table::{
    BlockEntry, FileBlockTable, FileHashTable, HashEntry, SectorOffsets, block_table_in,
    find_slot, hash_table_in, is_monotone, sector_count, sector_count_from_size,
    sector_offsets_in, lemma_monotone_span, MPQ_FILE_ADJUST_KEY, MPQ_FILE_COMPRESS,
    MPQ_FILE_ENCRYPTED, MPQ_FILE_IMPLODE,
};

verus! {

/// The geometry and the two tables of the archive in `data`, or why it
/// cannot be opened.
pub open spec fn open_archive(data: Seq<u8>) -> Result<
    (ArchiveInfo, Seq<HashEntry>, Seq<BlockEntry>),
    Failure,
> {
    match archive_info_in(data) {
        Err(e) => Err(e),
        Ok(info) => match hash_table_in(data, info) {
            Err(e) => Err(e),
            Ok(hashes) => match block_table_in(data, info) {
                Err(e) => Err(e),
                Ok(blocks) => Ok((info, hashes, blocks)),
            },
        },
    }
}

/// The encryption key of the file `entry` stored under `name`, if it is encrypted.
pub open spec fn file_key_of(entry: BlockEntry, name: Seq<u8>) -> Option<u32> {
    if entry.flags & MPQ_FILE_ENCRYPTED != 0 {
        Some(
            file_key(
                name,
                entry.file_pos as u32,
                entry.uncompressed_size as u32,
                entry.flags & MPQ_FILE_ADJUST_KEY != 0,
            ),
        )
    } else {
        None
    }
}

/// `key + delta`, where there is a key.
pub open spec fn shifted_key(key: Option<u32>, delta: u32) -> Option<u32> {
    match key {
        Some(k) => Some(wadd(k, delta)),
        None => None,
    }
}

/// The uncompressed size of sector `i` of `count` sectors of a file of
/// `size` bytes: a whole sector, but for the last, which holds the rest.
pub open spec fn sector_len(i: nat, count: nat, size: nat, sector_size: nat) -> nat {
    if i + 1 == count {
        let rest = size % sector_size;
        if rest == 0 {
            sector_size
        } else {
            rest
        }
    } else {
        sector_size
    }
}

/// `p` before the bytes of `r`, where `r` is a success.
pub open spec fn prepend(p: Seq<u8>, r: Result<Seq<u8>, Failure>) -> Result<Seq<u8>, Failure> {
    match r {
        Ok(x) => Ok(p + x),
        Err(e) => Err(e),
    }
}

/// Sectors `i` on of `body`, sector `j` standing between `bounds[j]` and
/// `bounds[j + 1]`, each decoded with `key + j` and joined; the first sector
/// that fails to decode makes the result.
pub open spec fn decode_sectors(
    body: Seq<u8>,
    bounds: Seq<u32>,
    i: nat,
    size: nat,
    sector_size: nat,
    key: Option<u32>,
) -> Result<Seq<u8>, Failure>
    decreases bounds.len() - i,
{
    if i + 1 >= bounds.len() {
        Ok(Seq::empty())
    } else {
        match decode_sector(
            body.subrange(bounds[i as int] as int, bounds[i as int + 1] as int),
            sector_len(i, (bounds.len() - 1) as nat, size, sector_size),
            shifted_key(key, i as u32),
        ) {
            Err(e) => Err(e),
            Ok(x) => prepend(x, decode_sectors(body, bounds, i + 1, size, sector_size, key)),
        }
    }
}

/// Sector offsets taken relative to the first.
pub open spec fn relative_bounds(offsets: Seq<u32>) -> Seq<u32> {
    Seq::new(offsets.len(), |i: int| (offsets[i] - offsets[0]) as u32)
}

/// Where the sectors of an uncompressed file of `size` bytes start, and where
/// the last one ends.
pub open spec fn plain_bounds(size: nat, sector_size: nat) -> Seq<u32> {
    Seq::new(
        sector_count(size, sector_size) + 1,
        |i: int|
            if i * sector_size <= size {
                (i * sector_size) as u32
            } else {
                size as u32
            },
    )
}

/// The contents of the file described by `entry`, decrypted with `key` where
/// one is given: a compressed file through its sector offset table (which
/// uses `key - 1`), an uncompressed one as sectors back to back.
#[verifier::opaque]
pub open spec fn read_block(data: Seq<u8>, info: ArchiveInfo, entry: BlockEntry, key: Option<u32>) -> Result<
    Seq<u8>,
    Failure,
> {
    let size = entry.uncompressed_size as nat;
    let sector_size = info.sector_size as nat;
    if entry.flags & MPQ_FILE_COMPRESS != 0 {
        match sector_offsets_in(data, info, entry, shifted_key(key, 0xFFFF_FFFF)) {
            Err(e) => Err(e),
            Ok(offsets) => match read_at(
                data,
                info,
                (entry.file_pos + offsets[0]) as u64,
                (offsets.last() - offsets[0]) as u64,
            ) {
                Err(e) => Err(e),
                Ok(body) => decode_sectors(body, relative_bounds(offsets), 0, size, sector_size, key),
            },
        }
    } else if entry.flags & MPQ_FILE_IMPLODE != 0 {
        Err(Failure::UnsupportedCompression("Implode"@))
    } else {
        match read_at(data, info, entry.file_pos, entry.uncompressed_size) {
            Err(e) => Err(e),
            Ok(body) => decode_sectors(body, plain_bounds(size, sector_size), 0, size, sector_size, key),
        }
    }
}

/// The contents of the file `name` in the archive with geometry `info` and
/// tables `hashes` and `blocks`, or why it cannot be read.
#[verifier::opaque]
pub open spec fn read_file_spec(
    data: Seq<u8>,
    info: ArchiveInfo,
    hashes: Seq<HashEntry>,
    blocks: Seq<BlockEntry>,
    name: Seq<u8>,
) -> Result<Seq<u8>, Failure> {
    match find_slot(hashes, name) {
        None => Err(Failure::FileNotFound),
        Some(slot) => {
            let index = hashes[slot as int].block_index;
            if index >= blocks.len() {
                Err(Failure::FileNotFound)
            } else {
                read_block(data, info, blocks[index as int], file_key_of(blocks[index as int], name))
            }
        },
    }
}

/// A line break of the list file.
pub open spec fn is_line_break(b: u8) -> bool {
    b == 0x0D || b == 0x0A
}

/// The text of a line, if it is valid UTF-8.
pub open spec fn line_text(line: Seq<u8>) -> Seq<Seq<char>> {
    if valid_utf8(line) {
        seq![decode_utf8(line)]
    } else {
        Seq::empty()
    }
}

/// The text of the nonempty line `s[start..end]`.
pub open spec fn pending_line(s: Seq<u8>, start: int, end: int) -> Seq<Seq<char>> {
    if end > start {
        line_text(s.subrange(start, end))
    } else {
        Seq::empty()
    }
}

/// The names in `s` from position `i` on, where the current line began at
/// `start`: lines end at `\r` or `\n`, empty lines and lines that are not
/// UTF-8 are left out.
pub open spec fn names_from(s: Seq<u8>, start: int, i: int) -> Seq<Seq<char>>
    decreases s.len() - i,
{
    if i >= s.len() {
        pending_line(s, start, i)
    } else if is_line_break(s[i]) {
        pending_line(s, start, i) + names_from(s, i + 1, i + 1)
    } else {
        names_from(s, start, i + 1)
    }
}

/// The names that the list file `s` holds.
pub open spec fn list_names(s: Seq<u8>) -> Seq<Seq<char>> {
    names_from(s, 0, 0)
}

/// The bytes of the list file's name.
pub open spec fn listfile_name() -> Seq<u8> {
    seq![0x28u8, 0x6C, 0x69, 0x73, 0x74, 0x66, 0x69, 0x6C, 0x65, 0x29]
}

/// Relies on `String::from_utf8`: it succeeds exactly on valid UTF-8, and the
/// string holds the decoded characters.
#[verifier::external_body]
fn utf8_line(bytes: Vec<u8>) -> (r: Option<String>)
    ensures
        r is Some <==> valid_utf8(bytes@),
        r matches Some(s) ==> s@ == decode_utf8(bytes@),
{
    String::from_utf8(bytes).ok()
}

/// A reader of an MPQ archive held in memory.
pub struct Archive {
    key_table: KeyTable,
    seeker: MpqSeeker,
    hash_table: FileHashTable,
    block_table: FileBlockTable,
}

impl Archive {
    /// The archive's bytes.
    pub closed spec fn image(&self) -> Seq<u8> {
        self.seeker.data@
    }

    /// The archive's geometry.
    pub closed spec fn geometry(&self) -> ArchiveInfo {
        self.seeker.archive_info
    }

    /// The entries of the hash table.
    pub closed spec fn hashes(&self) -> Seq<HashEntry> {
        self.hash_table.entries@
    }

    /// The entries of the block table.
    pub closed spec fn blocks(&self) -> Seq<BlockEntry> {
        self.block_table.entries@
    }

    /// The parts of the reader agree.
    pub closed spec fn wf(&self) -> bool {
        &&& self.key_table.wf()
        &&& self.seeker.wf()
        &&& 0 < self.hash_table.entries@.len() <= u32::MAX
        &&& 0 < self.seeker.archive_info.sector_size <= 0x8000_0000_0000_0000u64
        &&& forall|i: int|
            0 <= i < self.block_table.entries@.len() ==> #[trigger] self.block_table.entries@[i].uncompressed_size
                <= u32::MAX && self.block_table.entries@[i].file_pos <= u32::MAX
    }

    /// Opens the archive held in `data`: locates its header, then reads the
    /// hash table and the block table.
    pub fn open(data: Vec<u8>) -> (r: Result<Archive, Error>)
        ensures
            match r {
                Ok(a) => a.wf() && a.image() == data@ && open_archive(data@) == Ok::<
                    (ArchiveInfo, Seq<HashEntry>, Seq<BlockEntry>),
                    Failure,
                >((a.geometry(), a.hashes(), a.blocks())),
                Err(e) => open_archive(data@) == Err::<
                    (ArchiveInfo, Seq<HashEntry>, Seq<BlockEntry>),
                    Failure,
                >(e@),
            },
    {
        let key_table = KeyTable::new();
        let seeker = match MpqSeeker::new(data) {
            Ok(s) => s,
            Err(e) => {
                return Err(e);
            },
        };
        let hash_table = match FileHashTable::from_seeker(&key_table, &seeker) {
            Ok(t) => t,
            Err(e) => {
                return Err(e);
            },
        };
        let block_table = match FileBlockTable::from_seeker(&key_table, &seeker) {
            Ok(t) => t,
            Err(e) => {
                return Err(e);
            },
        };
        proof {
            reveal(block_table_in);
        }
        Ok(Archive { key_table, seeker, hash_table, block_table })
    }

    /// Reads a file's contents. The name is matched without regard to case,
    /// and `/` and `\` are the same character.
    pub fn read_file(&self, name: &str) -> (r: Result<Vec<u8>, Error>)
        requires
            self.wf(),
        ensures
            bytes_result(r) == read_file_spec(
                self.image(),
                self.geometry(),
                self.hashes(),
                self.blocks(),
                name.spec_bytes(),
            ),
    {
        self.read_file_bytes(name.as_bytes())
    }

    /// Reads the contents of the file whose name has the bytes `name`.
    #[verifier::rlimit(60)]
    pub fn read_file_bytes(&self, name: &[u8]) -> (r: Result<Vec<u8>, Error>)
        requires
            self.wf(),
        ensures
            bytes_result(r) == read_file_spec(
                self.image(),
                self.geometry(),
                self.hashes(),
                self.blocks(),
                name@,
            ),
    {
        reveal(read_file_spec);
        let hash_entry = match self.hash_table.find_entry(&self.key_table, name) {
            Some(e) => e,
            None => {
                return Err(Error::FileNotFound);
            },
        };
        let block_entry = match self.block_table.get(hash_entry.block_index as usize) {
            Some(b) => b,
            None => {
                return Err(Error::FileNotFound);
            },
        };
        let encryption_key = if block_entry.is_encrypted() {
            Some(
                calculate_file_key(
                    &self.key_table,
                    name,
                    block_entry.file_pos as u32,
                    block_entry.uncompressed_size as u32,
                    block_entry.is_key_adjusted(),
                ),
            )
        } else {
            None
        };
        self.read_block_exec(block_entry, encryption_key)
    }

    /// Reads the file that `block_entry` describes.
    fn read_block_exec(&self, block_entry: &BlockEntry, encryption_key: Option<u32>) -> (r: Result<Vec<u8>, Error>)
        requires
            self.wf(),
            block_entry.uncompressed_size <= u32::MAX,
            block_entry.file_pos <= u32::MAX,
        ensures
            bytes_result(r) == read_block(self.image(), self.geometry(), *block_entry, encryption_key),
    {
        reveal(read_block);
        let sector_size = self.seeker.info().sector_size;
        if block_entry.is_compressed() {
            self.read_compressed(block_entry, encryption_key)
        } else if block_entry.is_imploded() {
            Err(Error::UnsupportedCompression { kind: String::from_str("Implode") })
        } else {
            let raw = match self.seeker.read(block_entry.file_pos, block_entry.uncompressed_size) {
                Ok(raw) => raw,
                Err(e) => {
                    return Err(e);
                },
            };
            let bounds = plain_sector_bounds(block_entry.uncompressed_size, sector_size);
            decode_sectors_exec(
                &self.key_table,
                raw.as_slice(),
                &bounds,
                block_entry.uncompressed_size,
                sector_size,
                encryption_key,
            )
        }
    }

    /// Reads the compressed file that `block_entry` describes, through its
    /// sector offset table.
    #[verifier::rlimit(60)]
    fn read_compressed(&self, block_entry: &BlockEntry, encryption_key: Option<u32>) -> (r: Result<Vec<u8>, Error>)
        requires
            self.wf(),
            block_entry.uncompressed_size <= u32::MAX,
            block_entry.file_pos <= u32::MAX,
            block_entry.flags & MPQ_FILE_COMPRESS != 0,
        ensures
            bytes_result(r) == read_block(self.image(), self.geometry(), *block_entry, encryption_key),
    {
        reveal(read_block);
        let sector_size = self.seeker.info().sector_size;
        let sot_key = match encryption_key {
            Some(k) => Some(k.wrapping_add(0xFFFF_FFFF)),
            None => None,
        };
        assert(sot_key == shifted_key(encryption_key, 0xFFFF_FFFF));
        let sector_offsets = match SectorOffsets::from_reader(
            &self.key_table,
            &self.seeker,
            block_entry,
            sot_key,
        ) {
            Ok(s) => s,
            Err(e) => {
                return Err(e);
            },
        };
        let (first, span) = sector_offsets.all();
        proof {
            lemma_monotone_span(sector_offsets.offsets@, 0, sector_offsets.offsets@.len() - 1);
            assert(span as u64 == (sector_offsets.offsets@.last() - sector_offsets.offsets@[0]) as u64);
            assert(block_entry.file_pos + first as u64 == (block_entry.file_pos + sector_offsets.offsets@[0]) as u64);
        }
        let raw = match self.seeker.read(block_entry.file_pos + first as u64, span as u64) {
            Ok(raw) => raw,
            Err(e) => {
                return Err(e);
            },
        };
        let bounds = relative(&sector_offsets.offsets);
        proof {
            lemma_monotone_span(sector_offsets.offsets@, 0, sector_offsets.offsets@.len() - 1);
            assert(is_monotone(bounds@)) by {
                assert forall|k: int| 0 <= k < bounds@.len() - 1 implies #[trigger] bounds@[k] <= bounds@[k + 1] by {
                    lemma_monotone_span(sector_offsets.offsets@, 0, k);
                    assert(sector_offsets.offsets@[k] <= sector_offsets.offsets@[k + 1]);
                }
            }
        }
        decode_sectors_exec(
            &self.key_table,
            raw.as_slice(),
            &bounds,
            block_entry.uncompressed_size,
            sector_size,
            encryption_key,
        )
    }

    /// The names in the archive's `(listfile)`, if it has one.
    pub fn files(&self) -> (r: Option<Vec<String>>)
        requires
            self.wf(),
        ensures
            match read_file_spec(self.image(), self.geometry(), self.hashes(), self.blocks(), listfile_name()) {
                Ok(listfile) => r matches Some(names) && names@.map_values(|s: String| s@) == list_names(listfile),
                Err(_) => r is None,
            },
    {
        let name: Vec<u8> = vec![0x28u8, 0x6C, 0x69, 0x73, 0x74, 0x66, 0x69, 0x6C, 0x65, 0x29];
        proof {
            assert(name@ =~= listfile_name());
        }
        let listfile = match self.read_file_bytes(name.as_slice()) {
            Ok(l) => l,
            Err(_) => {
                return None;
            },
        };
        Some(split_names(listfile.as_slice()))
    }
}

/// The names that the list file `listfile` holds.
pub fn split_names(listfile: &[u8]) -> (r: Vec<String>)
    ensures
        r@.map_values(|s: String| s@) == list_names(listfile@),
{
    let ghost s = listfile@;
    let mut list: Vec<String> = Vec::new();
    let mut line_start: usize = 0;
    let mut i: usize = 0;
    while i < listfile.len()
        invariant
            s == listfile@,
            line_start <= i <= s.len(),
            list_names(s) == list@.map_values(|x: String| x@) + names_from(s, line_start as int, i as int),
        decreases s.len() - i,
    {
        if listfile[i] == 0x0D || listfile[i] == 0x0A {
            let ghost before = list@.map_values(|x: String| x@);
            push_line(&mut list, listfile, line_start, i);
            proof {
                assert(list@.map_values(|x: String| x@) =~= before + pending_line(s, line_start as int, i as int));
                assert(list_names(s) == list@.map_values(|x: String| x@) + names_from(s, (i + 1) as int, (i + 1) as int))
                    by {
                    assert(names_from(s, line_start as int, i as int) == pending_line(s, line_start as int, i as int)
                        + names_from(s, i + 1, i + 1));
                    assert(before + (pending_line(s, line_start as int, i as int) + names_from(s, i + 1, i + 1))
                        =~= (before + pending_line(s, line_start as int, i as int)) + names_from(s, i + 1, i + 1));
                }
            }
            line_start = i + 1;
        }
        i = i + 1;
    }
    let ghost before = list@.map_values(|x: String| x@);
    push_line(&mut list, listfile, line_start, i);
    proof {
        assert(list@.map_values(|x: String| x@) =~= before + pending_line(s, line_start as int, i as int));
        assert(list_names(s) =~= list@.map_values(|x: String| x@));
    }
    list
}

/// Appends the text of the line `listfile[start..end]` where it is nonempty
/// and valid UTF-8.
fn push_line(list: &mut Vec<String>, listfile: &[u8], start: usize, end: usize)
    requires
        start <= end <= listfile@.len(),
    ensures
        final(list)@.map_values(|x: String| x@) == old(list)@.map_values(|x: String| x@)
            + pending_line(listfile@, start as int, end as int),
{
    if end > start {
        let line = vstd::slice::slice_to_vec(vstd::slice::slice_subrange(listfile, start, end));
        match utf8_line(line) {
            Some(text) => {
                list.push(text);
                assert(final(list)@.map_values(|x: String| x@) =~= old(list)@.map_values(|x: String| x@)
                    + pending_line(listfile@, start as int, end as int));
            },
            None => {
                assert(final(list)@.map_values(|x: String| x@) =~= old(list)@.map_values(|x: String| x@)
                    + pending_line(listfile@, start as int, end as int));
            },
        }
    } else {
        assert(final(list)@.map_values(|x: String| x@) =~= old(list)@.map_values(|x: String| x@)
            + pending_line(listfile@, start as int, end as int));
    }
}

/// Sector offsets taken relative to the first.
fn relative(offsets: &Vec<u32>) -> (r: Vec<u32>)
    requires
        offsets@.len() >= 1,
        is_monotone(offsets@),
    ensures
        r@ == relative_bounds(offsets@),
{
    let first = offsets[0];
    let mut r: Vec<u32> = Vec::new();
    let mut i: usize = 0;
    while i < offsets.len()
        invariant
            offsets@.len() >= 1,
            is_monotone(offsets@),
            first == offsets@[0],
            i <= offsets@.len(),
            r@ == relative_bounds(offsets@).subrange(0, i as int),
        decreases offsets@.len() - i,
    {
        proof {
            lemma_monotone_span(offsets@, 0, i as int);
        }
        r.push(offsets[i] - first);
        i = i + 1;
        proof {
            assert(r@ =~= relative_bounds(offsets@).subrange(0, i as int));
        }
    }
    proof {
        assert(r@ =~= relative_bounds(offsets@));
    }
    r
}

proof fn lemma_sector_count_cover(size: nat, sector_size: nat)
    requires
        sector_size > 0,
    ensures
        sector_count(size, sector_size) * sector_size >= size,
        size > 0 ==> (sector_count(size, sector_size) - 1) * sector_size < size,
{
    if size > 0 {
        let q = ((size - 1) as nat / sector_size) as nat;
        let r = ((size - 1) as nat % sector_size) as nat;
        assert((size - 1) as nat == q * sector_size + r && r < sector_size) by (nonlinear_arith)
            requires
                sector_size > 0,
                q == (size - 1) as nat / sector_size,
                r == (size - 1) as nat % sector_size,
        ;
        assert((q + 1) * sector_size == q * sector_size + sector_size) by (nonlinear_arith);
    }
}

/// Where the sectors of an uncompressed file of `size` bytes start, and where
/// the last one ends.
fn plain_sector_bounds(size: u64, sector_size: u64) -> (r: Vec<u32>)
    requires
        size <= u32::MAX,
        0 < sector_size <= 0x8000_0000_0000_0000u64,
    ensures
        r@ == plain_bounds(size as nat, sector_size as nat),
        is_monotone(r@),
        r@.last() == size,
{
    let count = sector_count_from_size(size, sector_size);
    proof {
        lemma_sector_count_cover(size as nat, sector_size as nat);
    }
    let mut r: Vec<u32> = Vec::new();
    let mut pos: u64 = 0;
    let mut i: u64 = 0;
    while i <= count
        invariant
            count == sector_count(size as nat, sector_size as nat),
            count * sector_size >= size,
            size > 0 ==> (count - 1) * sector_size < size,
            size <= u32::MAX,
            0 < sector_size <= 0x8000_0000_0000_0000u64,
            i <= count + 1,
            pos == (if i * sector_size <= size { i * sector_size } else { size as int }),
            r@ == plain_bounds(size as nat, sector_size as nat).subrange(0, i as int),
            forall|k: int| 0 <= k < r@.len() ==> #[trigger] r@[k] <= pos,
            is_monotone(r@),
        decreases count + 1 - i,
    {
        let ghost old_r = r@;
        r.push(pos as u32);
        proof {
            assert(r@ =~= plain_bounds(size as nat, sector_size as nat).subrange(0, i + 1));
            assert(is_monotone(r@)) by {
                assert forall|k: int| 0 <= k < r@.len() - 1 implies #[trigger] r@[k] <= r@[k + 1] by {
                    if k < old_r.len() - 1 {
                        assert(old_r[k] <= old_r[k + 1]);
                    }
                }
            }
            assert((i + 1) * sector_size == i * sector_size + sector_size) by (nonlinear_arith);
        }
        pos = if pos + sector_size <= size { pos + sector_size } else { size };
        i = i + 1;
    }
    proof {
        assert(r@ =~= plain_bounds(size as nat, sector_size as nat));
        if size > 0 {
            assert(count * sector_size >= size);
        } else {
            assert(count == 0);
        }
    }
    r
}

proof fn lemma_sector_len_bound(i: nat, count: nat, size: nat, sector_size: nat)
    requires
        sector_size > 0,
        count == sector_count(size, sector_size),
        i < count,
    ensures
        sector_len(i, count, size, sector_size) <= size,
{
    lemma_sector_count_cover(size, sector_size);
    if i + 1 == count {
        let rest = size % sector_size;
        if rest == 0 {
            assert(size >= sector_size) by (nonlinear_arith)
                requires
                    size > 0,
                    size % sector_size == 0,
                    sector_size > 0,
            ;
        } else {
            assert(rest <= size) by (nonlinear_arith)
                requires
                    rest == size % sector_size,
                    sector_size > 0,
            ;
        }
    } else {
        assert(count >= 2);
        assert((count - 1) * sector_size >= sector_size) by (nonlinear_arith)
            requires
                count >= 2,
                sector_size > 0,
        ;
    }
}

/// Decodes and joins the sectors of `body` that `bounds` delimit.
fn decode_sectors_exec(
    table: &KeyTable,
    body: &[u8],
    bounds: &Vec<u32>,
    size: u64,
    sector_size: u64,
    key: Option<u32>,
) -> (r: Result<Vec<u8>, Error>)
    requires
        table.wf(),
        size <= u32::MAX,
        sector_size > 0,
        bounds@.len() == sector_count(size as nat, sector_size as nat) + 1,
        is_monotone(bounds@),
        bounds@.last() <= body@.len(),
    ensures
        bytes_result(r) == decode_sectors(body@, bounds@, 0, size as nat, sector_size as nat, key),
{
    let count = bounds.len() - 1;
    let mut result: Vec<u8> = Vec::new();
    let mut i: usize = 0;
    while i < count
        invariant
            table.wf(),
            size <= u32::MAX,
            sector_size > 0,
            count == bounds@.len() - 1,
            count == sector_count(size as nat, sector_size as nat),
            is_monotone(bounds@),
            bounds@.last() <= body@.len(),
            i <= count,
            decode_sectors(body@, bounds@, 0, size as nat, sector_size as nat, key) == prepend(
                result@,
                decode_sectors(body@, bounds@, i as nat, size as nat, sector_size as nat, key),
            ),
        decreases count - i,
    {
        proof {
            lemma_monotone_span(bounds@, i as int, i + 1);
            lemma_monotone_span(bounds@, i + 1, count as int);
            lemma_sector_len_bound(i as nat, count as nat, size as nat, sector_size as nat);
        }
        let start = bounds[i] as usize;
        let end = bounds[i + 1] as usize;
        let slice = vstd::slice::slice_subrange(body, start, end);
        let sector_size_i = if i + 1 == count {
            let rest = size % sector_size;
            if rest == 0 {
                sector_size
            } else {
                rest
            }
        } else {
            sector_size
        };
        let key_i = match key {
            Some(k) => Some(k.wrapping_add(i as u32)),
            None => None,
        };
        match decode_mpq_block(table, slice, sector_size_i, key_i) {
            Ok(mut x) => {
                let ghost before = result@;
                let ghost xs = x@;
                result.append(&mut x);
                proof {
                    let tail = decode_sectors(body@, bounds@, (i + 1) as nat, size as nat, sector_size as nat, key);
                    match tail {
                        Ok(t) => {
                            assert(before + (xs + t) =~= (before + xs) + t);
                        },
                        Err(_) => {},
                    }
                }
            },
            Err(e) => {
                return Err(e);
            },
        }
        i = i + 1;
    }
    proof {
        assert(result@ + Seq::<u8>::empty() =~= result@);
    }
    Ok(result)
}

/// A name is looked up without regard to case, and `/` and `\` are the same
/// character: names that fold alike read the same file, or fail alike.
pub proof fn lemma_read_file_fold(
    data: Seq<u8>,
    info: ArchiveInfo,
    hashes: Seq<HashEntry>,
    blocks: Seq<BlockEntry>,
    n1: Seq<u8>,
    n2: Seq<u8>,
)
    requires
        fold_name(n1) == fold_name(n2),
    ensures
        read_file_spec(data, info, hashes, blocks, n1) == read_file_spec(data, info, hashes, blocks, n2),
{
    reveal(read_file_spec);
    lemma_name_hash_fold(n1, n2, HASH_NAME_A);
    lemma_name_hash_fold(n1, n2, HASH_NAME_B);
    lemma_name_hash_fold(n1, n2, HASH_TABLE_INDEX);
    assert(find_slot(hashes, n1) == find_slot(hashes, n2));
    if let Some(slot) = find_slot(hashes, n1) {
        let index = hashes[slot as int].block_index;
        if index < blocks.len() {
            let e = blocks[index as int];
            lemma_file_key_fold(n1, n2, e.file_pos as u32, e.uncompressed_size as u32, e.flags & MPQ_FILE_ADJUST_KEY != 0);
            assert(file_key_of(e, n1) == file_key_of(e, n2));
        }
    }
}

} // verus!
