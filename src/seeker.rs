//! Locating the archive header inside a byte image, and archive-relative reads.
use vstd::prelude::*;
use crate::bytes::{u32_at, read_u32};
use crate::error::{Error, Failure, bytes_result};
use crate::header::{
    FileHeader, UserHeader, parse_header, exp2, lemma_exp2_monotone, HEADER_MPQ_MAGIC,
    HEADER_USER_MAGIC, HEADER_BOUNDARY, MAX_BLOCK_SIZE_EXPONENT,
};

verus! {

/// Bytes in one hash-table or block-table entry.
pub const TABLE_ENTRY_SIZE: u64 = 16;

/// Where a table stands and how large it is.
#[derive(Debug, Clone, Copy)]
pub struct TableInfo {
    pub entries: u64,
    pub offset: u64,
    pub size: u64,
}

/// The geometry of an archive, derived from its header.
#[derive(Debug, Clone, Copy)]
pub struct ArchiveInfo {
    pub hash_table_info: TableInfo,
    pub block_table_info: TableInfo,
    pub sector_size: u64,
    pub file_size: u64,
    pub archive_size: u64,
    pub header_offset: u64,
}

/// The sector size that the block-size exponent `k` gives.
pub open spec fn sector_size_of(k: u16) -> nat {
    512 * exp2(k as nat)
}

/// The geometry that `header`, found at `header_offset` in an image of
/// `file_size` bytes, describes.
pub open spec fn archive_info_of(file_size: u64, header_offset: u64, header: FileHeader) -> ArchiveInfo {
    ArchiveInfo {
        hash_table_info: TableInfo {
            entries: header.hash_table_entries as u64,
            offset: header.hash_table_offset as u64,
            size: (header.hash_table_entries * TABLE_ENTRY_SIZE) as u64,
        },
        block_table_info: TableInfo {
            entries: header.block_table_entries as u64,
            offset: header.block_table_offset as u64,
            size: (header.block_table_entries * TABLE_ENTRY_SIZE) as u64,
        },
        sector_size: sector_size_of(header.block_size) as u64,
        file_size,
        archive_size: header.archive_size as u64,
        header_offset,
    }
}

impl ArchiveInfo {
    /// The geometry that `header` describes.
    pub fn new(file_size: u64, header_offset: u64, header: &FileHeader) -> (r: ArchiveInfo)
        requires
            header.block_size <= MAX_BLOCK_SIZE_EXPONENT,
        ensures
            r == archive_info_of(file_size, header_offset, *header),
            512 <= r.sector_size <= 0x8000_0000_0000_0000u64,
    {
        let hash_entries = header.hash_table_entries as u64;
        let block_entries = header.block_table_entries as u64;
        let hash_table_info = TableInfo {
            entries: hash_entries,
            offset: header.hash_table_offset as u64,
            size: hash_entries * TABLE_ENTRY_SIZE,
        };
        let block_table_info = TableInfo {
            entries: block_entries,
            offset: header.block_table_offset as u64,
            size: block_entries * TABLE_ENTRY_SIZE,
        };
        let mut sector_size: u64 = 512;
        let mut i: u16 = 0;
        while i < header.block_size
            invariant
                i <= header.block_size <= MAX_BLOCK_SIZE_EXPONENT,
                sector_size == 512 * exp2(i as nat),
                512 <= sector_size <= 0x8000_0000_0000_0000u64,
            decreases header.block_size - i,
        {
            proof {
                lemma_exp2_monotone((i + 1) as nat, 54);
                lemma_exp2_54();
                assert(exp2((i + 1) as nat) == 2 * exp2(i as nat));
            }
            sector_size = sector_size * 2;
            i = i + 1;
        }
        ArchiveInfo {
            hash_table_info,
            block_table_info,
            sector_size,
            file_size,
            archive_size: header.archive_size as u64,
            header_offset,
        }
    }
}

/// The header that the scan of `data` finds from boundary `i` on, with the
/// offset of its magic: at each 512-byte boundary that has room for a magic,
/// a user header sends the scan to the archive header it points at, and an
/// archive header is taken where it stands.
pub open spec fn scan_headers(data: Seq<u8>, i: nat) -> Result<(u64, FileHeader), Failure>
    decreases data.len() + 512 - 512 * i,
{
    let at = 512 * (i as int);
    if at + 4 > data.len() {
        Err(Failure::NoHeader)
    } else if u32_at(data, at) == HEADER_USER_MAGIC {
        if at + 12 > data.len() {
            Err(Failure::Corrupted)
        } else {
            let target = u32_at(data, at + 8) + at;
            if target + 4 > data.len() {
                Err(Failure::Corrupted)
            } else if u32_at(data, target) != HEADER_MPQ_MAGIC {
                Err(Failure::Corrupted)
            } else {
                match parse_header(data, target + 4) {
                    Ok(h) => Ok((target as u64, h)),
                    Err(e) => Err(e),
                }
            }
        }
    } else if u32_at(data, at) == HEADER_MPQ_MAGIC {
        match parse_header(data, at + 4) {
            Ok(h) => Ok((at as u64, h)),
            Err(e) => Err(e),
        }
    } else {
        scan_headers(data, i + 1)
    }
}

/// The geometry of the archive in `data`, or why there is none.
pub open spec fn archive_info_in(data: Seq<u8>) -> Result<ArchiveInfo, Failure> {
    match scan_headers(data, 0) {
        Ok((offset, h)) => if h.block_size > MAX_BLOCK_SIZE_EXPONENT {
            Err(Failure::Corrupted)
        } else {
            Ok(archive_info_of(data.len() as u64, offset, h))
        },
        Err(e) => Err(e),
    }
}

/// Finds the archive header in `data` and derives the archive's geometry.
pub fn find_headers(data: &[u8]) -> (r: Result<ArchiveInfo, Error>)
    ensures
        match r {
            Ok(info) => archive_info_in(data@) == Ok::<ArchiveInfo, Failure>(info)
                && info.file_size == data@.len() && 512 <= info.sector_size <= 0x8000_0000_0000_0000u64,
            Err(e) => archive_info_in(data@) == Err::<ArchiveInfo, Failure>(e@),
        },
{
    let file_size: usize = data.len();
    let mut at: usize = 0;
    let ghost mut i: nat = 0;
    while at <= file_size && file_size - at >= 4
        invariant
            file_size == data@.len(),
            at == 512 * i,
            scan_headers(data@, 0) == scan_headers(data@, i),
        decreases file_size + 512 - at,
    {
        let magic = read_u32(data, at);
        if magic == HEADER_USER_MAGIC {
            if file_size - at < 12 {
                return Err(Error::Corrupted);
            }
            let user = UserHeader::new(data, at + 4);
            let target: usize = match user {
                Ok(u) => {
                    let offset = u.file_header_offset as usize;
                    if offset > file_size - at || file_size - at - offset < 4 {
                        return Err(Error::Corrupted);
                    }
                    offset + at
                },
                Err(e) => {
                    return Err(e);
                },
            };
            if read_u32(data, target) != HEADER_MPQ_MAGIC {
                return Err(Error::Corrupted);
            }
            match FileHeader::from_reader(data, target + 4) {
                Ok(h) => {
                    return info_from(file_size as u64, target as u64, &h);
                },
                Err(e) => {
                    return Err(e);
                },
            }
        } else if magic == HEADER_MPQ_MAGIC {
            match FileHeader::from_reader(data, at + 4) {
                Ok(h) => {
                    return info_from(file_size as u64, at as u64, &h);
                },
                Err(e) => {
                    return Err(e);
                },
            }
        }
        if file_size - at < HEADER_BOUNDARY as usize {
            proof {
                assert(scan_headers(data@, i + 1) == Err::<(u64, FileHeader), Failure>(Failure::NoHeader));
            }
            return Err(Error::NoHeader);
        }
        at = at + HEADER_BOUNDARY as usize;
        proof {
            i = i + 1;
        }
    }
    Err(Error::NoHeader)
}

/// The geometry of the archive whose header `h` stands at `offset`, where its
/// sector size can be represented.
fn info_from(file_size: u64, offset: u64, h: &FileHeader) -> (r: Result<ArchiveInfo, Error>)
    ensures
        h.block_size > MAX_BLOCK_SIZE_EXPONENT ==> (r matches Err(e) && e@ == Failure::Corrupted),
        h.block_size <= MAX_BLOCK_SIZE_EXPONENT ==> r == Ok::<ArchiveInfo, Error>(archive_info_of(file_size, offset, *h)),
        r matches Ok(info) ==> 512 <= info.sector_size <= 0x8000_0000_0000_0000u64,
{
    if h.block_size > MAX_BLOCK_SIZE_EXPONENT {
        Err(Error::Corrupted)
    } else {
        Ok(ArchiveInfo::new(file_size, offset, h))
    }
}

/// Archive-relative reads from a byte image that holds an archive.
pub struct MpqSeeker {
    pub data: Vec<u8>,
    pub archive_info: ArchiveInfo,
}

/// The `size` bytes at archive offset `offset`, or `Corrupted` where they
/// run past the end of the image.
pub open spec fn read_at(data: Seq<u8>, info: ArchiveInfo, offset: u64, size: u64) -> Result<Seq<u8>, Failure> {
    let start = info.header_offset + offset;
    if start + size > data.len() {
        Err(Failure::Corrupted)
    } else {
        Ok(data.subrange(start, start + size))
    }
}

impl MpqSeeker {
    /// The image and its geometry agree.
    pub open spec fn wf(&self) -> bool {
        &&& self.archive_info.file_size == self.data@.len()
        &&& self.archive_info.header_offset <= self.archive_info.file_size
    }

    /// Finds the archive in `data`.
    pub fn new(data: Vec<u8>) -> (r: Result<MpqSeeker, Error>)
        ensures
            match r {
                Ok(s) => s.wf() && s.data@ == data@ && archive_info_in(data@) == Ok::<ArchiveInfo, Failure>(s.archive_info)
                    && 512 <= s.archive_info.sector_size <= 0x8000_0000_0000_0000u64,
                Err(e) => archive_info_in(data@) == Err::<ArchiveInfo, Failure>(e@),
            },
    {
        let all = data.as_slice();
        assert(all@ == data@);
        let archive_info = match find_headers(all) {
            Ok(info) => info,
            Err(e) => {
                return Err(e);
            },
        };
        proof {
            lemma_scan_offset(data@, 0);
            assert(archive_info.file_size == data@.len());
            assert(archive_info.header_offset <= archive_info.file_size);
        }
        Ok(MpqSeeker { data, archive_info })
    }

    /// The image offset of archive offset `offset`.
    pub fn archive_offset(&self, offset: u64) -> (r: Option<u64>)
        ensures
            r matches Some(x) ==> x == offset + self.archive_info.header_offset,
            r is None <==> offset + self.archive_info.header_offset > u64::MAX,
    {
        offset.checked_add(self.archive_info.header_offset)
    }

    /// The archive's geometry.
    pub fn info(&self) -> (r: &ArchiveInfo)
        ensures
            *r == self.archive_info,
    {
        &self.archive_info
    }

    /// Reads `size` bytes at archive offset `offset`.
    pub fn read(&self, offset: u64, size: u64) -> (r: Result<Vec<u8>, Error>)
        requires
            self.wf(),
        ensures
            bytes_result(r) == read_at(self.data@, self.archive_info, offset, size),
    {
        let start = match self.archive_offset(offset) {
            Some(s) => s,
            None => {
                return Err(Error::Corrupted);
            },
        };
        let n: usize = self.data.len();
        if start > n as u64 || size > n as u64 - start {
            return Err(Error::Corrupted);
        }
        let all = self.data.as_slice();
        assert(all@ == self.data@);
        let slice = vstd::slice::slice_subrange(all, start as usize, (start + size) as usize);
        Ok(vstd::slice::slice_to_vec(slice))
    }
}

/// The header that the scan finds lies inside the image.
pub proof fn lemma_scan_offset(data: Seq<u8>, i: nat)
    ensures
        scan_headers(data, i) matches Ok((offset, h)) ==> offset + 32 <= data.len(),
    decreases data.len() + 512 - 512 * i,
{
    let at = 512 * (i as int);
    if at + 4 <= data.len() && u32_at(data, at) != HEADER_USER_MAGIC && u32_at(data, at) != HEADER_MPQ_MAGIC {
        lemma_scan_offset(data, i + 1);
    }
}

proof fn lemma_exp2_54()
    ensures
        exp2(54) == 0x40_0000_0000_0000,
{
    reveal_with_fuel(exp2, 55);
}

/// An image with neither magic at any 512-byte boundary has no header.
pub proof fn lemma_no_magic_no_header(data: Seq<u8>, i: nat)
    requires
        forall|k: nat|
            512 * k + 4 <= data.len() ==> #[trigger] u32_at(data, 512 * (k as int)) != HEADER_USER_MAGIC
                && u32_at(data, 512 * (k as int)) != HEADER_MPQ_MAGIC,
    ensures
        scan_headers(data, i) == Err::<(u64, FileHeader), Failure>(Failure::NoHeader),
        i == 0 ==> archive_info_in(data) == Err::<ArchiveInfo, Failure>(Failure::NoHeader),
    decreases data.len() + 512 - 512 * i,
{
    let at = 512 * (i as int);
    if at + 4 <= data.len() {
        assert(u32_at(data, 512 * (i as int)) != HEADER_USER_MAGIC && u32_at(data, 512 * (i as int)) != HEADER_MPQ_MAGIC);
        lemma_no_magic_no_header(data, i + 1);
    }
}

} // verus!
