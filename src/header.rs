//! The archive header, the optional user header and the layout constants.
use vstd::prelude::*;
use crate::bytes::{u16_at, u32_at, u16_bytes, u32_bytes, read_u16, read_u32, push_u16, push_u32};
use crate::error::{Error, Failure};

verus! {

/// `MPQ\x1A`, the magic of an archive header.
pub const HEADER_MPQ_MAGIC: u32 = 0x1A51_504D;

/// `MPQ\x1B`, the magic of a user header.
pub const HEADER_USER_MAGIC: u32 = 0x1B51_504D;

/// Headers start at multiples of this many bytes.
pub const HEADER_BOUNDARY: u64 = 512;

/// Size of the archive header, magic included.
pub const HEADER_MPQ_SIZE: u32 = 32;

/// Size of the user header's fields after its magic.
pub const HEADER_USER_FIELDS_SIZE: u64 = 8;

/// Size of the archive header's fields after its magic.
pub const HEADER_MPQ_FIELDS_SIZE: u64 = 28;

/// Largest block-size exponent whose sector size fits in 64 bits.
pub const MAX_BLOCK_SIZE_EXPONENT: u16 = 54;

/// `2` to the power `k`.
pub open spec fn exp2(k: nat) -> nat
    decreases k,
{
    if k == 0 {
        1
    } else {
        2 * exp2((k - 1) as nat)
    }
}

pub proof fn lemma_exp2_monotone(a: nat, b: nat)
    requires
        a <= b,
    ensures
        1 <= exp2(a) <= exp2(b),
    decreases b,
{
    if b > 0 && a < b {
        lemma_exp2_monotone(a, (b - 1) as nat);
    } else if b > 0 {
        lemma_exp2_monotone((a - 1) as nat, (b - 1) as nat);
    }
}

/// A valid sector size: 512 times a power of two, at most 2^31.
pub open spec fn is_sector_size(s: nat) -> bool {
    exists|k: nat| k <= 22 && s == 512 * exp2(k)
}

/// The archive header as it stands after the magic.
#[derive(Debug, Clone, Copy)]
pub struct FileHeader {
    pub header_size: u32,
    pub archive_size: u32,
    pub format_version: u16,
    pub block_size: u16,
    pub hash_table_offset: u32,
    pub block_table_offset: u32,
    pub hash_table_entries: u32,
    pub block_table_entries: u32,
}

/// The bytes of `h`, magic first.
pub open spec fn header_bytes(h: FileHeader) -> Seq<u8> {
    u32_bytes(HEADER_MPQ_MAGIC) + u32_bytes(h.header_size) + u32_bytes(h.archive_size)
        + u16_bytes(h.format_version) + u16_bytes(h.block_size) + u32_bytes(h.hash_table_offset)
        + u32_bytes(h.block_table_offset) + u32_bytes(h.hash_table_entries) + u32_bytes(
        h.block_table_entries,
    )
}

/// The header fields that start at `pos` in `data`, or the reason they are refused.
pub open spec fn parse_header(data: Seq<u8>, pos: int) -> Result<FileHeader, Failure> {
    if pos + HEADER_MPQ_FIELDS_SIZE > data.len() {
        Err(Failure::Corrupted)
    } else if u16_at(data, pos + 8) != 0 {
        Err(Failure::UnsupportedVersion)
    } else {
        Ok(
            FileHeader {
                header_size: u32_at(data, pos),
                archive_size: u32_at(data, pos + 4),
                format_version: u16_at(data, pos + 8),
                block_size: u16_at(data, pos + 10),
                hash_table_offset: u32_at(data, pos + 12),
                block_table_offset: u32_at(data, pos + 16),
                hash_table_entries: u32_at(data, pos + 20),
                block_table_entries: u32_at(data, pos + 24),
            },
        )
    }
}

impl FileHeader {
    /// A version-0 header for an archive with sectors of `block_size` bytes.
    pub fn new_v1(
        archive_size: u32,
        block_size: u32,
        hash_table_offset: u32,
        block_table_offset: u32,
        hash_table_entries: u32,
        block_table_entries: u32,
    ) -> (r: FileHeader)
        requires
            is_sector_size(block_size as nat),
        ensures
            r.format_version == 0,
            r.header_size == HEADER_MPQ_SIZE,
            r.archive_size == archive_size,
            512 * exp2(r.block_size as nat) == block_size,
            r.hash_table_offset == hash_table_offset,
            r.block_table_offset == block_table_offset,
            r.hash_table_entries == hash_table_entries,
            r.block_table_entries == block_table_entries,
    {
        let ghost k = choose|k: nat| k <= 22 && block_size == 512 * exp2(k);
        let mut rest = block_size / 512;
        let mut pow: u16 = 0;
        proof {
            lemma_exp2_monotone(0, k);
            assert(rest == exp2(k));
            assert(exp2(0) == 1);
            assert(rest * exp2(0) == exp2(k));
        }
        while rest > 1
            invariant
                block_size == 512 * exp2(k),
                k <= 22,
                pow <= k,
                rest >= 1,
                rest == exp2((k - pow) as nat),
                rest * exp2(pow as nat) == exp2(k),
            decreases rest,
        {
            proof {
                assert(k - pow > 0);
                assert(exp2((k - pow) as nat) == 2 * exp2((k - pow - 1) as nat));
                lemma_exp2_monotone(0, (k - pow - 1) as nat);
                assert(exp2((pow + 1) as nat) == 2 * exp2(pow as nat));
                assert((rest / 2) * exp2((pow + 1) as nat) == rest * exp2(pow as nat)) by (nonlinear_arith)
                    requires rest == 2 * exp2((k - pow - 1) as nat), exp2((pow + 1) as nat) == 2 * exp2(pow as nat);
            }
            rest = rest / 2;
            pow = pow + 1;
        }
        proof {
            if k - pow > 0 {
                lemma_exp2_monotone(1, (k - pow) as nat);
                assert(exp2(1) == 2 * exp2(0));
            }
            assert(k == pow);
        }
        FileHeader {
            format_version: 0,
            header_size: HEADER_MPQ_SIZE,
            archive_size,
            block_size: pow,
            hash_table_offset,
            hash_table_entries,
            block_table_offset,
            block_table_entries,
        }
    }

    /// Reads the header fields that start at `pos`, just after the magic.
    pub fn from_reader(data: &[u8], pos: usize) -> (r: Result<FileHeader, Error>)
        ensures
            match r {
                Ok(h) => parse_header(data@, pos as int) == Ok::<FileHeader, Failure>(h),
                Err(e) => parse_header(data@, pos as int) == Err::<FileHeader, Failure>(e@),
            },
    {
        if pos as u64 > data.len() as u64 || (data.len() - pos) < HEADER_MPQ_FIELDS_SIZE as usize {
            return Err(Error::Corrupted);
        }
        let format_version = read_u16(data, pos + 8);
        if format_version != 0 {
            return Err(Error::UnsupportedVersion);
        }
        Ok(
            FileHeader {
                header_size: read_u32(data, pos),
                archive_size: read_u32(data, pos + 4),
                format_version,
                block_size: read_u16(data, pos + 10),
                hash_table_offset: read_u32(data, pos + 12),
                block_table_offset: read_u32(data, pos + 16),
                hash_table_entries: read_u32(data, pos + 20),
                block_table_entries: read_u32(data, pos + 24),
            },
        )
    }

    /// Appends the magic and the header.
    pub fn write(&self, out: &mut Vec<u8>)
        ensures
            final(out)@ == old(out)@ + header_bytes(*self),
    {
        push_u32(out, HEADER_MPQ_MAGIC);
        push_u32(out, self.header_size);
        push_u32(out, self.archive_size);
        push_u16(out, self.format_version);
        push_u16(out, self.block_size);
        push_u32(out, self.hash_table_offset);
        push_u32(out, self.block_table_offset);
        push_u32(out, self.hash_table_entries);
        push_u32(out, self.block_table_entries);
        proof {
            assert(final(out)@ =~= old(out)@ + header_bytes(*self));
        }
    }
}

/// The user header, which points at the archive header.
#[derive(Debug, Clone, Copy)]
pub struct UserHeader {
    pub user_data_size: u32,
    pub file_header_offset: u32,
}

impl UserHeader {
    /// Reads the user header fields that start at `pos`, just after the magic.
    pub fn new(data: &[u8], pos: usize) -> (r: Result<UserHeader, Error>)
        ensures
            pos + HEADER_USER_FIELDS_SIZE <= data@.len() <==> r is Ok,
            r matches Ok(u) ==> u.user_data_size == u32_at(data@, pos as int)
                && u.file_header_offset == u32_at(data@, pos + 4),
            r matches Err(e) ==> e@ == Failure::Corrupted,
    {
        if pos as u64 > data.len() as u64 || (data.len() - pos) < HEADER_USER_FIELDS_SIZE as usize {
            return Err(Error::Corrupted);
        }
        Ok(UserHeader { user_data_size: read_u32(data, pos), file_header_offset: read_u32(data, pos + 4) })
    }
}

} // verus!
