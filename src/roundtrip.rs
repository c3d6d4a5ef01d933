//! Why the reader gives back what the writer stored: each file's stored form,
//! read through the block entry that the writer makes for it, decodes to the
//! file's contents.
use vstd::prelude::*;
use crate::archive::{
    decode_sectors, plain_bounds, sector_len, shifted_key, read_block, file_key_of, relative_bounds,
};
use crate::bytes::{u32_at, u32_bytes, lemma_le32_of_bytes};
use crate::creator::{file_body, write_key, sot_entries, u32s_bytes, options_flags, lemma_flag_bits, FileOptions};
use crate::crypto::{fold_name, lemma_file_key_fold, decrypt_bytes};
use crate::seeker::{ArchiveInfo, read_at};
use crate::table::{BlockEntry, is_monotone, parse_offsets, sector_offsets_in, MPQ_FILE_COMPRESS, MPQ_FILE_IMPLODE};
use crate::compression::{decode_sector, encode_sector, zlib_deflated, zlib_inflated, lemma_decode_encode_sector};
use crate::creator::{concat, maybe_encrypt, sector_chunk, sector_blobs};
use crate::crypto::{lemma_decrypt_encrypt, lemma_cipher_len, KEY2_SEED};
use crate::error::Failure;
use crate::table::sector_count;

verus! {

proof fn lemma_concat_take_step(parts: Seq<Seq<u8>>, i: int)
    requires
        0 <= i < parts.len(),
    ensures
        concat(parts.take(i + 1)) == concat(parts.take(i)) + parts[i],
{
    assert(parts.take(i + 1).drop_last() =~= parts.take(i));
}

/// The parts before part `j` make a prefix of the whole.
proof fn lemma_concat_prefix(parts: Seq<Seq<u8>>, j: int)
    requires
        0 <= j <= parts.len(),
    ensures
        concat(parts.take(j)).len() <= concat(parts).len(),
        concat(parts).subrange(0, concat(parts.take(j)).len() as int) == concat(parts.take(j)),
    decreases parts.len() - j,
{
    if j == parts.len() {
        assert(parts.take(j) =~= parts);
        assert(concat(parts).subrange(0, concat(parts).len() as int) =~= concat(parts));
    } else {
        lemma_concat_prefix(parts, j + 1);
        lemma_concat_take_step(parts, j);
        let whole = concat(parts);
        let a = concat(parts.take(j));
        let b = concat(parts.take(j + 1));
        assert(whole.subrange(0, a.len() as int) =~= b.subrange(0, a.len() as int));
        assert(b.subrange(0, a.len() as int) =~= a);
    }
}

/// Part `i` stands between the lengths of the parts before it and through it.
pub proof fn lemma_concat_part(parts: Seq<Seq<u8>>, i: int)
    requires
        0 <= i < parts.len(),
    ensures
        concat(parts.take(i + 1)).len() == concat(parts.take(i)).len() + parts[i].len(),
        concat(parts).subrange(concat(parts.take(i)).len() as int, concat(parts.take(i + 1)).len() as int)
            == parts[i],
{
    lemma_concat_prefix(parts, i + 1);
    lemma_concat_take_step(parts, i);
    let whole = concat(parts);
    let a = concat(parts.take(i));
    let b = concat(parts.take(i + 1));
    assert(whole.subrange(a.len() as int, b.len() as int) =~= b.subrange(a.len() as int, b.len() as int));
    assert(b.subrange(a.len() as int, b.len() as int) =~= parts[i]);
}

proof fn lemma_cover(size: nat, s: nat)
    requires
        s > 0,
    ensures
        sector_count(size, s) * s >= size,
        size > 0 ==> (sector_count(size, s) - 1) * s < size,
{
    if size > 0 {
        let q = ((size - 1) as nat / s) as nat;
        let r = ((size - 1) as nat % s) as nat;
        assert((size - 1) as nat == q * s + r && r < s) by (nonlinear_arith)
            requires
                s > 0,
                q == (size - 1) as nat / s,
                r == (size - 1) as nat % s,
        ;
        assert((q + 1) * s == q * s + s) by (nonlinear_arith);
    }
}

/// The start of sector `i`, clamped to the data's end.
pub open spec fn clamped(i: nat, s: nat, size: nat) -> nat {
    if i * s <= size {
        i * s
    } else {
        size
    }
}

/// Sector `i` of `data` has the size that the reader expects of it.
proof fn lemma_chunk_size(data: Seq<u8>, s: nat, i: nat)
    requires
        s > 0,
        i < sector_count(data.len(), s),
    ensures
        sector_chunk(data, s, i).len() == sector_len(i, sector_count(data.len(), s), data.len(), s),
        sector_chunk(data, s, i) == data.subrange(clamped(i, s, data.len()) as int, clamped(i + 1, s, data.len()) as int),
        clamped(i, s, data.len()) == i * s,
{
    let u = data.len();
    let n = sector_count(u, s);
    lemma_cover(u, s);
    assert((i + 1) * s == i * s + s) by (nonlinear_arith);
    assert(i * s < u) by (nonlinear_arith)
        requires
            i < n,
            n >= 1,
            (n - 1) * s < u,
            s > 0,
    {
        assert(i <= n - 1);
        vstd::arithmetic::mul::lemma_mul_inequality(i as int, (n - 1) as int, s as int);
    }
    if i + 1 < n {
        vstd::arithmetic::mul::lemma_mul_inequality((i + 1) as int, (n - 1) as int, s as int);
    } else {
        assert(i + 1 == n);
        if (i + 1) * s <= u {
            assert((i + 1) * s == u);
            assert(u % s == 0) by (nonlinear_arith)
                requires
                    u == (i + 1) * s,
                    s > 0,
            ;
        } else {
            assert(u % s == u - i * s) by (nonlinear_arith)
                requires
                    i * s < u,
                    u < i * s + s,
                    s > 0,
            ;
        }
    }
}

/// Sectors `i` on decode to the data from sector `i` on, where each stored
/// part decodes to its sector and the bounds are the parts' lengths.
proof fn lemma_decode_parts(
    data: Seq<u8>,
    s: nat,
    key: Option<u32>,
    parts: Seq<Seq<u8>>,
    bounds: Seq<u32>,
    i: nat,
)
    requires
        s > 0,
        parts.len() == sector_count(data.len(), s),
        bounds.len() == parts.len() + 1,
        forall|j: int| 0 <= j <= parts.len() ==> #[trigger] bounds[j] == concat(parts.take(j)).len(),
        forall|j: int|
            0 <= j < parts.len() ==> decode_sector(
                #[trigger] parts[j],
                sector_len(j as nat, parts.len(), data.len(), s),
                shifted_key(key, j as u32),
            ) == Ok::<Seq<u8>, Failure>(sector_chunk(data, s, j as nat)),
        i <= parts.len(),
    ensures
        decode_sectors(concat(parts), bounds, i, data.len(), s, key) == Ok::<Seq<u8>, Failure>(
            data.subrange(clamped(i, s, data.len()) as int, data.len() as int),
        ),
    decreases parts.len() - i,
{
    let u = data.len();
    let n = parts.len();
    lemma_cover(u, s);
    if i == n {
        assert(clamped(i, s, u) == u) by {
            if i * s <= u {
                assert(i * s == u);
            }
        }
        assert(data.subrange(u as int, u as int) =~= Seq::<u8>::empty());
    } else {
        lemma_decode_parts(data, s, key, parts, bounds, i + 1);
        lemma_concat_part(parts, i as int);
        lemma_chunk_size(data, s, i);
        assert(bounds[i as int] == concat(parts.take(i as int)).len());
        assert(bounds[i as int + 1] == concat(parts.take(i as int + 1)).len());
        let chunk = sector_chunk(data, s, i);
        assert(decode_sector(parts[i as int], sector_len(i, n, u, s), shifted_key(key, i as u32))
            == Ok::<Seq<u8>, Failure>(chunk));
        let rest = data.subrange(clamped(i + 1, s, u) as int, u as int);
        assert((i + 1) * s == i * s + s) by (nonlinear_arith);
        assert(clamped(i, s, u) <= clamped(i + 1, s, u) <= u);
        assert(data.subrange(clamped(i, s, u) as int, u as int) =~= chunk + rest);
    }
}

/// The zlib codec inflates what it deflated.
pub open spec fn zlib_round_trips() -> bool {
    forall|x: Seq<u8>|
        #[trigger] zlib_deflated(x) matches Some(c) ==> zlib_inflated(c, x.len()) == Some(x)
}

proof fn lemma_parts_len(data: Seq<u8>, s: nat, parts: Seq<Seq<u8>>, i: nat)
    requires
        s > 0,
        parts.len() == sector_count(data.len(), s),
        forall|j: int| 0 <= j < parts.len() ==> (#[trigger] parts[j]).len() == sector_chunk(data, s, j as nat).len(),
        i <= parts.len(),
    ensures
        concat(parts.take(i as int)).len() == clamped(i, s, data.len()),
    decreases i,
{
    if i == 0 {
        assert(parts.take(0) =~= Seq::<Seq<u8>>::empty());
    } else {
        lemma_parts_len(data, s, parts, (i - 1) as nat);
        lemma_concat_take_step(parts, i - 1);
        lemma_chunk_size(data, s, (i - 1) as nat);
        assert(((i - 1) + 1) * s == (i - 1) * s + s) by (nonlinear_arith);
    }
}

proof fn lemma_u32s_len(v: Seq<u32>)
    ensures
        u32s_bytes(v).len() == 4 * v.len(),
    decreases v.len(),
{
    if v.len() > 0 {
        lemma_u32s_len(v.drop_last());
    }
}

proof fn lemma_u32s_parse(v: Seq<u32>)
    ensures
        parse_offsets(u32s_bytes(v), v.len()) == v,
    decreases v.len(),
{
    if v.len() > 0 {
        let p = v.drop_last();
        lemma_u32s_parse(p);
        lemma_u32s_len(p);
        lemma_le32_of_bytes(v.last());
        let b = u32s_bytes(v);
        assert(b == u32s_bytes(p) + u32_bytes(v.last()));
        assert forall|i: int| 0 <= i < v.len() implies #[trigger] parse_offsets(b, v.len())[i] == v[i] by {
            if i < p.len() {
                assert(u32_at(b, 4 * i) == u32_at(u32s_bytes(p), 4 * i));
                assert(parse_offsets(u32s_bytes(p), p.len())[i] == p[i]);
            } else {
                assert(u32_at(b, 4 * i) == u32_at(u32_bytes(v.last()), 0));
            }
        }
        assert(parse_offsets(b, v.len()) =~= v);
    }
}

/// A file stored by the writer at archive offset `offset` reads back, through
/// the block entry the writer makes for it and under any name that folds like
/// the one it was stored under, as its contents; for a compressed file this
/// holds where the zlib codec inflates what it deflated.
pub proof fn lemma_file_round_trip(
    image: Seq<u8>,
    info: ArchiveInfo,
    name: Seq<u8>,
    read_name: Seq<u8>,
    data: Seq<u8>,
    options: FileOptions,
    offset: nat,
)
    requires
        fold_name(read_name) == fold_name(name),
        info.sector_size == 0x10000,
        offset <= u32::MAX,
        data.len() <= u32::MAX,
        info.header_offset + offset + file_body(name, data, options, offset as u32, 0x10000).len() <= image.len(),
        file_body(name, data, options, offset as u32, 0x10000).len() <= u32::MAX,
        image.subrange(
            info.header_offset + offset,
            info.header_offset + offset + file_body(name, data, options, offset as u32, 0x10000).len(),
        ) == file_body(name, data, options, offset as u32, 0x10000),
        options.compress ==> zlib_round_trips(),
    ensures
        read_block(
            image,
            info,
            BlockEntry {
                file_pos: offset as u64,
                compressed_size: file_body(name, data, options, offset as u32, 0x10000).len() as u64,
                uncompressed_size: data.len() as u64,
                flags: options_flags(options),
            },
            file_key_of(
                BlockEntry {
                    file_pos: offset as u64,
                    compressed_size: file_body(name, data, options, offset as u32, 0x10000).len() as u64,
                    uncompressed_size: data.len() as u64,
                    flags: options_flags(options),
                },
                read_name,
            ),
        ) == Ok::<Seq<u8>, Failure>(data),
{
    reveal(read_block);
    let s: nat = 0x10000;
    let u = data.len();
    let key = write_key(name, data, options, offset as u32);
    let blobs = sector_blobs(data, s, key, options.compress);
    let body = file_body(name, data, options, offset as u32, s);
    let n = sector_count(u, s);
    let entry = BlockEntry {
        file_pos: offset as u64,
        compressed_size: body.len() as u64,
        uncompressed_size: u as u64,
        flags: options_flags(options),
    };
    lemma_flag_bits(options);
    lemma_file_key_fold(read_name, name, offset as u32, u as u32, options.adjust_key);
    assert(entry.file_pos as u32 == offset as u32);
    assert(entry.uncompressed_size as u32 == u as u32);
    assert(file_key_of(entry, read_name) == key);
    if options.compress {
        assert(body == maybe_encrypt(u32s_bytes(sot_entries(blobs)), shifted_key(key, 0xFFFF_FFFF)) + concat(blobs));
        lemma_read_compressed(image, info, entry, key, data, offset, body);
    } else {
        assert(body == concat(blobs));
        lemma_read_plain(image, info, entry, key, data, offset, body);
    }
}

#[verifier::rlimit(100)]
proof fn lemma_read_compressed(
    image: Seq<u8>,
    info: ArchiveInfo,
    entry: BlockEntry,
    key: Option<u32>,
    data: Seq<u8>,
    offset: nat,
    body: Seq<u8>,
)
    requires
        info.sector_size == 0x10000,
        entry.file_pos == offset,
        entry.uncompressed_size == data.len(),
        entry.flags & MPQ_FILE_COMPRESS != 0,
        data.len() <= u32::MAX,
        offset <= u32::MAX,
        body.len() <= u32::MAX,
        body == maybe_encrypt(u32s_bytes(sot_entries(sector_blobs(data, 0x10000, key, true))), shifted_key(key, 0xFFFF_FFFF))
            + concat(sector_blobs(data, 0x10000, key, true)),
        info.header_offset + offset + body.len() <= image.len(),
        image.subrange(info.header_offset + offset, info.header_offset + offset + body.len()) == body,
        zlib_round_trips(),
    ensures
        read_block(image, info, entry, key) == Ok::<Seq<u8>, Failure>(data),
{
    let s: nat = 0x10000;
    let u = data.len();
    let n = sector_count(u, s);
    let blobs = sector_blobs(data, s, key, true);
    let start = info.header_offset + offset;
    lemma_compressed_sectors(data, key);
    lemma_sot_read(image, info, entry, key, data, offset, body);
    let sot = sot_entries(blobs);
    let tk = shifted_key(key, 0xFFFF_FFFF);
    let table_bytes = u32s_bytes(sot);
    lemma_u32s_len(sot);
    let stored_table = maybe_encrypt(table_bytes, tk);
    if let Some(k) = tk {
        lemma_cipher_len(table_bytes, k, KEY2_SEED, true);
    }
    let whole = concat(blobs);
    let t = 4 * (n + 1);
    assert(stored_table.len() == t);
    assert(blobs.take(0) =~= Seq::<Seq<u8>>::empty());
    assert(sot[0] == t);
    assert(blobs.take(blobs.len() as int) =~= blobs);
    assert(sot[n as int] == t + whole.len());
    assert(sot.last() == sot[n as int]);
    lemma_subrange_tail(image, start as int, stored_table, whole);
    let pos = (entry.file_pos + sot[0]) as u64;
    let size = (sot.last() - sot[0]) as u64;
    assert(pos == offset + t);
    assert(size == whole.len());
    assert(read_at(image, info, pos, size) == Ok::<Seq<u8>, Failure>(whole));
    let bounds = relative_bounds(sot);
    assert forall|j: int| 0 <= j <= blobs.len() implies #[trigger] bounds[j] == concat(blobs.take(j)).len() by {
        assert(sot[j] == t + concat(blobs.take(j)).len());
    }
    lemma_decode_parts(data, s, key, blobs, bounds, 0);
    assert(data.subrange(0, u as int) =~= data);
    reveal(read_block);
}

#[verifier::rlimit(60)]
proof fn lemma_read_plain(
    image: Seq<u8>,
    info: ArchiveInfo,
    entry: BlockEntry,
    key: Option<u32>,
    data: Seq<u8>,
    offset: nat,
    body: Seq<u8>,
)
    requires
        info.sector_size == 0x10000,
        entry.file_pos == offset,
        entry.uncompressed_size == data.len(),
        entry.flags & MPQ_FILE_COMPRESS == 0,
        entry.flags & MPQ_FILE_IMPLODE == 0,
        data.len() <= u32::MAX,
        body == concat(sector_blobs(data, 0x10000, key, false)),
        info.header_offset + offset + body.len() <= image.len(),
        image.subrange(info.header_offset + offset, info.header_offset + offset + body.len()) == body,
    ensures
        read_block(image, info, entry, key) == Ok::<Seq<u8>, Failure>(data),
{
    reveal(read_block);
    let s: nat = 0x10000;
    let u = data.len();
    let n = sector_count(u, s);
    let blobs = sector_blobs(data, s, key, false);
    let start = info.header_offset + offset;
    lemma_plain_sectors(data, key);
    lemma_parts_len(data, s, blobs, n);
    assert(blobs.take(n as int) =~= blobs);
    assert(body.len() == u);
    let bounds = plain_bounds(u, s);
    assert forall|j: int| 0 <= j <= blobs.len() implies #[trigger] bounds[j] == concat(blobs.take(j)).len() by {
        lemma_parts_len(data, s, blobs, j as nat);
    }
    lemma_decode_parts(data, s, key, blobs, bounds, 0);
    assert(data.subrange(0, u as int) =~= data);
}

proof fn lemma_plain_sectors(data: Seq<u8>, key: Option<u32>)
    ensures
        ({
            let blobs = sector_blobs(data, 0x10000, key, false);
            forall|j: int|
                0 <= j < blobs.len() ==> (#[trigger] blobs[j]).len() == sector_chunk(data, 0x10000, j as nat).len()
                    && decode_sector(blobs[j], sector_len(j as nat, blobs.len(), data.len(), 0x10000), shifted_key(key, j as u32))
                    == Ok::<Seq<u8>, Failure>(sector_chunk(data, 0x10000, j as nat))
        }),
{
    let blobs = sector_blobs(data, 0x10000, key, false);
    assert forall|j: int| 0 <= j < blobs.len() implies (#[trigger] blobs[j]).len() == sector_chunk(data, 0x10000, j as nat).len()
        && decode_sector(blobs[j], sector_len(j as nat, blobs.len(), data.len(), 0x10000), shifted_key(key, j as u32))
        == Ok::<Seq<u8>, Failure>(sector_chunk(data, 0x10000, j as nat)) by {
        let chunk = sector_chunk(data, 0x10000, j as nat);
        lemma_chunk_size(data, 0x10000, j as nat);
        if let Some(k) = shifted_key(key, j as u32) {
            lemma_decrypt_encrypt(chunk, k);
            lemma_cipher_len(chunk, k, KEY2_SEED, true);
        }
    }
}

proof fn lemma_compressed_sectors(data: Seq<u8>, key: Option<u32>)
    requires
        zlib_round_trips(),
    ensures
        ({
            let blobs = sector_blobs(data, 0x10000, key, true);
            forall|j: int|
                0 <= j < blobs.len() ==> decode_sector(
                    #[trigger] blobs[j],
                    sector_len(j as nat, blobs.len(), data.len(), 0x10000),
                    shifted_key(key, j as u32),
                ) == Ok::<Seq<u8>, Failure>(sector_chunk(data, 0x10000, j as nat))
        }),
{
    let blobs = sector_blobs(data, 0x10000, key, true);
    assert forall|j: int| 0 <= j < blobs.len() implies decode_sector(
        #[trigger] blobs[j],
        sector_len(j as nat, blobs.len(), data.len(), 0x10000),
        shifted_key(key, j as u32),
    ) == Ok::<Seq<u8>, Failure>(sector_chunk(data, 0x10000, j as nat)) by {
        let chunk = sector_chunk(data, 0x10000, j as nat);
        lemma_chunk_size(data, 0x10000, j as nat);
        assert(zlib_deflated(chunk) matches Some(c) ==> zlib_inflated(c, chunk.len()) == Some(chunk));
        lemma_decode_encode_sector(chunk, shifted_key(key, j as u32));
    }
}

proof fn lemma_subrange_tail(image: Seq<u8>, start: int, x: Seq<u8>, y: Seq<u8>)
    requires
        0 <= start,
        start + x.len() + y.len() <= image.len(),
        image.subrange(start, start + x.len() + y.len()) == x + y,
    ensures
        image.subrange(start + x.len(), start + x.len() + y.len()) == y,
        image.subrange(start, start + x.len()) == x,
{
    let whole = image.subrange(start, start + x.len() + y.len());
    assert(image.subrange(start + x.len(), start + x.len() + y.len()) =~= whole.subrange(
        x.len() as int,
        (x.len() + y.len()) as int,
    ));
    assert((x + y).subrange(x.len() as int, (x.len() + y.len()) as int) =~= y);
    assert(image.subrange(start, start + x.len()) =~= whole.subrange(0, x.len() as int));
    assert((x + y).subrange(0, x.len() as int) =~= x);
}

#[verifier::rlimit(60)]
proof fn lemma_sot_read(
    image: Seq<u8>,
    info: ArchiveInfo,
    entry: BlockEntry,
    key: Option<u32>,
    data: Seq<u8>,
    offset: nat,
    body: Seq<u8>,
)
    requires
        info.sector_size == 0x10000,
        entry.file_pos == offset,
        entry.uncompressed_size == data.len(),
        data.len() <= u32::MAX,
        body.len() <= u32::MAX,
        body == maybe_encrypt(u32s_bytes(sot_entries(sector_blobs(data, 0x10000, key, true))), shifted_key(key, 0xFFFF_FFFF))
            + concat(sector_blobs(data, 0x10000, key, true)),
        info.header_offset + offset + body.len() <= image.len(),
        image.subrange(info.header_offset + offset, info.header_offset + offset + body.len()) == body,
    ensures
        sector_offsets_in(image, info, entry, shifted_key(key, 0xFFFF_FFFF)) == Ok::<Seq<u32>, Failure>(
            sot_entries(sector_blobs(data, 0x10000, key, true)),
        ),
        forall|j: int|
            0 <= j <= sector_blobs(data, 0x10000, key, true).len() ==> #[trigger] sot_entries(
                sector_blobs(data, 0x10000, key, true),
            )[j] == 4 * (sector_blobs(data, 0x10000, key, true).len() + 1) + concat(
                sector_blobs(data, 0x10000, key, true).take(j),
            ).len(),
{
    let s: nat = 0x10000;
    let u = data.len();
    let n = sector_count(u, s);
    let blobs = sector_blobs(data, s, key, true);
    let start = info.header_offset + offset;
    let sot = sot_entries(blobs);
    let tk = shifted_key(key, 0xFFFF_FFFF);
    let table_bytes = u32s_bytes(sot);
    lemma_u32s_len(sot);
    let stored_table = maybe_encrypt(table_bytes, tk);
    if let Some(k) = tk {
        lemma_cipher_len(table_bytes, k, KEY2_SEED, true);
        lemma_decrypt_encrypt(table_bytes, k);
    }
    let whole = concat(blobs);
    lemma_concat_prefix(blobs, blobs.len() as int);
    assert(blobs.take(blobs.len() as int) =~= blobs);
    assert forall|j: int| 0 <= j <= blobs.len() implies #[trigger] sot[j] == 4 * (n + 1) + concat(blobs.take(j)).len() by {
        lemma_concat_prefix(blobs, j);
    }
    assert(is_monotone(sot)) by {
        assert forall|j: int| 0 <= j < sot.len() - 1 implies #[trigger] sot[j] <= sot[j + 1] by {
            lemma_concat_part(blobs, j);
        }
    }
    lemma_u32s_parse(sot);
    lemma_subrange_tail(image, start as int, stored_table, whole);
    reveal(sector_offsets_in);
}

} // verus!
