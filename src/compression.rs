//! Decoding and encoding of single sectors: decryption, then the compression
//! methods named by a sector's first byte.
use vstd::prelude::*;
use crate::crypto::{KeyTable, decrypt_bytes, encrypt_bytes, decrypt_mpq_block, encrypt_mpq_block};
use crate::error::{Error, Failure, bytes_result};

verus! {

/// Method bit: Huffman coding.
pub const COMPRESSION_HUFFMAN: u8 = 0x01;

/// Method bit: DEFLATE with a zlib header.
pub const COMPRESSION_ZLIB: u8 = 0x02;

/// Method bit: PKWare DCL.
pub const COMPRESSION_PKWARE: u8 = 0x08;

/// Method bit: bzip2.
pub const COMPRESSION_BZIP2: u8 = 0x10;

/// Method bit: IMA ADPCM, one channel.
pub const COMPRESSION_IMA_ADPCM_MONO: u8 = 0x40;

/// Method bit: IMA ADPCM, two channels.
pub const COMPRESSION_IMA_ADPCM_STEREO: u8 = 0x80;

/// What inflating the zlib stream `input` into at most `limit` bytes gives, or
/// `None` where the stream is rejected.
pub uninterp spec fn zlib_inflated(input: Seq<u8>, limit: nat) -> Option<Seq<u8>>;

/// What unpacking the bzip2 stream `input` into at most `limit` bytes gives, or
/// `None` where the stream is rejected.
pub uninterp spec fn bzip2_unpacked(input: Seq<u8>, limit: nat) -> Option<Seq<u8>>;

/// The zlib stream that DEFLATE at the default level makes of `input`, or
/// `None` where the encoder fails.
pub uninterp spec fn zlib_deflated(input: Seq<u8>) -> Option<Seq<u8>>;

/// Relies on flate2's `Decompress::decompress` (with a zlib header, one call,
/// `FlushDecompress::Finish`) to inflate `input` into a buffer of `limit`
/// bytes, cut to what it wrote.
#[verifier::external_body]
fn zlib_decompress(input: &[u8], limit: usize) -> (r: Option<Vec<u8>>)
    ensures
        r matches Some(v) ==> zlib_inflated(input@, limit as nat) == Some(v@),
        r is None ==> zlib_inflated(input@, limit as nat) is None,
{
    let mut out = vec![0u8; limit];
    let mut inflater = flate2::Decompress::new(true);
    match inflater.decompress(input, &mut out, flate2::FlushDecompress::Finish) {
        Ok(status) if status != flate2::Status::BufError => {
            out.truncate(inflater.total_out() as usize);
            Some(out)
        },
        _ => None,
    }
}

/// Relies on bzip2's `Decompress::decompress` (one call) to unpack `input`
/// into a buffer of `limit` bytes, cut to what it wrote.
#[verifier::external_body]
fn bzip2_decompress(input: &[u8], limit: usize) -> (r: Option<Vec<u8>>)
    ensures
        r matches Some(v) ==> bzip2_unpacked(input@, limit as nat) == Some(v@),
        r is None ==> bzip2_unpacked(input@, limit as nat) is None,
{
    let mut out = vec![0u8; limit];
    let mut unpacker = bzip2::Decompress::new(false);
    match unpacker.decompress(input, &mut out) {
        Ok(bzip2::Status::Ok) | Ok(bzip2::Status::StreamEnd) => {
            out.truncate(unpacker.total_out() as usize);
            Some(out)
        },
        _ => None,
    }
}

/// Relies on flate2's `bufread::ZlibEncoder` at `Compression::default()`,
/// read to its end, to DEFLATE `input` into a zlib stream.
#[verifier::external_body]
fn zlib_compress(input: &[u8]) -> (r: Option<Vec<u8>>)
    ensures
        r matches Some(v) ==> zlib_deflated(input@) == Some(v@),
        r is None ==> zlib_deflated(input@) is None,
{
    let mut out = Vec::new();
    let mut encoder = flate2::bufread::ZlibEncoder::new(input, flate2::Compression::default());
    match std::io::Read::read_to_end(&mut encoder, &mut out) {
        Ok(_) => Some(out),
        Err(_) => None,
    }
}

/// Undoes the methods named by the method byte `method` on `body`, bzip2 first
/// and zlib second; a method that is not supported fails.
pub open spec fn unpack(method: u8, body: Seq<u8>, size: nat) -> Result<Seq<u8>, Failure> {
    if method & COMPRESSION_IMA_ADPCM_MONO != 0 {
        Err(Failure::UnsupportedCompression("IMA ADPCM Mono"@))
    } else if method & COMPRESSION_IMA_ADPCM_STEREO != 0 {
        Err(Failure::UnsupportedCompression("IMA ADPCM Stereo"@))
    } else if method & COMPRESSION_HUFFMAN != 0 {
        Err(Failure::UnsupportedCompression("Huffman"@))
    } else if method & COMPRESSION_PKWARE != 0 {
        Err(Failure::UnsupportedCompression("PKWare DCL"@))
    } else {
        let unpacked = if method & COMPRESSION_BZIP2 != 0 {
            bzip2_unpacked(body, size)
        } else {
            Some(body)
        };
        match unpacked {
            None => Err(Failure::Corrupted),
            Some(b) => if method & COMPRESSION_ZLIB != 0 {
                match zlib_inflated(b, size) {
                    Some(x) => Ok(x),
                    None => Err(Failure::Corrupted),
                }
            } else {
                Ok(b)
            },
        }
    }
}

/// A stored sector decrypted with `key` where there is one; then, unless its
/// stored size equals its size `size`, its method byte stripped and undone.
pub open spec fn decode_sector(input: Seq<u8>, size: nat, key: Option<u32>) -> Result<
    Seq<u8>,
    Failure,
> {
    let buf = match key {
        Some(k) => decrypt_bytes(input, k),
        None => input,
    };
    if input.len() == size {
        Ok(buf)
    } else if buf.len() == 0 {
        Err(Failure::Corrupted)
    } else {
        unpack(buf[0], buf.subrange(1, buf.len() as int), size)
    }
}

/// Decrypts a stored sector where `encryption_key` is given, then, unless
/// its stored size equals `uncompressed_size`, decompresses it.
pub fn decode_mpq_block(
    table: &KeyTable,
    input: &[u8],
    uncompressed_size: u64,
    encryption_key: Option<u32>,
) -> (r: Result<Vec<u8>, Error>)
    requires
        table.wf(),
        uncompressed_size <= usize::MAX,
    ensures
        bytes_result(r) == decode_sector(input@, uncompressed_size as nat, encryption_key),
{
    let mut buf = vstd::slice::slice_to_vec(input);
    if let Some(key) = encryption_key {
        decrypt_mpq_block(table, &mut buf, key);
    }
    proof {
        crate::crypto::lemma_cipher_len(input@, match encryption_key { Some(k) => k, None => 0 }, crate::crypto::KEY2_SEED, false);
    }
    if input.len() as u64 == uncompressed_size {
        return Ok(buf);
    }
    if buf.len() == 0 {
        return Err(Error::Corrupted);
    }
    let method = buf[0];
    if method & COMPRESSION_IMA_ADPCM_MONO != 0 {
        return Err(Error::UnsupportedCompression { kind: String::from_str("IMA ADPCM Mono") });
    }
    if method & COMPRESSION_IMA_ADPCM_STEREO != 0 {
        return Err(Error::UnsupportedCompression { kind: String::from_str("IMA ADPCM Stereo") });
    }
    if method & COMPRESSION_HUFFMAN != 0 {
        return Err(Error::UnsupportedCompression { kind: String::from_str("Huffman") });
    }
    if method & COMPRESSION_PKWARE != 0 {
        return Err(Error::UnsupportedCompression { kind: String::from_str("PKWare DCL") });
    }
    let size = uncompressed_size as usize;
    let mut body = vstd::slice::slice_to_vec(vstd::slice::slice_subrange(buf.as_slice(), 1, buf.len()));
    if method & COMPRESSION_BZIP2 != 0 {
        match bzip2_decompress(body.as_slice(), size) {
            Some(b) => {
                body = b;
            },
            None => {
                return Err(Error::Corrupted);
            },
        }
    }
    if method & COMPRESSION_ZLIB != 0 {
        match zlib_decompress(body.as_slice(), size) {
            Some(b) => {
                body = b;
            },
            None => {
                return Err(Error::Corrupted);
            },
        }
    }
    Ok(body)
}

/// A sector as the writer stores it before encryption: the method byte of
/// zlib and the DEFLATE stream where that is shorter than the data, else the
/// data itself.
pub open spec fn pack_sector(data: Seq<u8>) -> Seq<u8> {
    match zlib_deflated(data) {
        Some(c) => if c.len() + 1 < data.len() {
            seq![COMPRESSION_ZLIB] + c
        } else {
            data
        },
        None => data,
    }
}

/// A sector as the writer stores it: packed, then encrypted where a key is given.
pub open spec fn encode_sector(data: Seq<u8>, key: Option<u32>) -> Seq<u8> {
    match key {
        Some(k) => encrypt_bytes(pack_sector(data), k),
        None => pack_sector(data),
    }
}

/// Compresses a sector with DEFLATE, keeping it verbatim where that does not
/// make it shorter.
pub fn compress_mpq_block(data: &[u8]) -> (r: Vec<u8>)
    ensures
        r@ == pack_sector(data@),
{
    match zlib_compress(data) {
        Some(c) => {
            if c.len() < data.len() && c.len() + 1 < data.len() {
                let mut out: Vec<u8> = Vec::new();
                out.push(COMPRESSION_ZLIB);
                let mut i: usize = 0;
                while i < c.len()
                    invariant
                        i <= c@.len(),
                        out@ == seq![COMPRESSION_ZLIB] + c@.subrange(0, i as int),
                    decreases c@.len() - i,
                {
                    out.push(c[i]);
                    i = i + 1;
                    proof {
                        assert(out@ =~= seq![COMPRESSION_ZLIB] + c@.subrange(0, i as int));
                    }
                }
                proof {
                    assert(c@.subrange(0, i as int) =~= c@);
                }
                out
            } else {
                vstd::slice::slice_to_vec(data)
            }
        },
        None => vstd::slice::slice_to_vec(data),
    }
}

/// Packs a sector and encrypts it with `encryption_key` where one is given.
pub fn encode_mpq_block(table: &KeyTable, data: &[u8], encryption_key: Option<u32>) -> (r: Vec<
    u8,
>)
    requires
        table.wf(),
    ensures
        r@ == encode_sector(data@, encryption_key),
{
    let mut packed = compress_mpq_block(data);
    if let Some(key) = encryption_key {
        encrypt_mpq_block(table, &mut packed, key);
    }
    packed
}

/// A sector that the writer stored decodes to the data it was given, where
/// the zlib codec gives back what it compressed.
pub proof fn lemma_decode_encode_sector(data: Seq<u8>, key: Option<u32>)
    requires
        zlib_deflated(data) matches Some(c) ==> zlib_inflated(c, data.len()) == Some(data),
    ensures
        decode_sector(encode_sector(data, key), data.len(), key) == Ok::<Seq<u8>, Failure>(data),
{
    let packed = pack_sector(data);
    if let Some(k) = key {
        crate::crypto::lemma_decrypt_encrypt(packed, k);
        crate::crypto::lemma_cipher_len(packed, k, crate::crypto::KEY2_SEED, true);
    }
    if packed != data {
        let c = zlib_deflated(data)->Some_0;
        assert(packed == seq![COMPRESSION_ZLIB] + c);
        assert(packed[0] == COMPRESSION_ZLIB);
        assert(packed.subrange(1, packed.len() as int) =~= c);
        assert(COMPRESSION_ZLIB & COMPRESSION_IMA_ADPCM_MONO == 0) by (bit_vector);
        assert(COMPRESSION_ZLIB & COMPRESSION_IMA_ADPCM_STEREO == 0) by (bit_vector);
        assert(COMPRESSION_ZLIB & COMPRESSION_HUFFMAN == 0) by (bit_vector);
        assert(COMPRESSION_ZLIB & COMPRESSION_PKWARE == 0) by (bit_vector);
        assert(COMPRESSION_ZLIB & COMPRESSION_BZIP2 == 0) by (bit_vector);
        assert(COMPRESSION_ZLIB & COMPRESSION_ZLIB != 0) by (bit_vector);
    }
}

} // verus!
