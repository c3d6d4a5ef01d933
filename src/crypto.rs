//! The key table, the name hash family and the block stream cipher.
use vstd::prelude::*;
use vstd::arithmetic::div_mod::lemma_fundamental_div_mod_converse;
use crate::bytes::{u32_at, u32_bytes, lemma_le32_of_bytes, lemma_bytes_of_le32, read_u32, put_u32};

verus! {

/// Number of words in the key table.
pub const KEY_TABLE_LEN: usize = 0x500;

/// Hash kind: index into the hash table.
pub const HASH_TABLE_INDEX: u32 = 0x000;

/// Hash kind: first verification hash of a name.
pub const HASH_NAME_A: u32 = 0x100;

/// Hash kind: second verification hash of a name.
pub const HASH_NAME_B: u32 = 0x200;

/// Hash kind: encryption key of a file.
pub const HASH_FILE_KEY: u32 = 0x300;

/// Offset of the cipher's mixing words in the key table.
pub const KEY_MIX_OFFSET: u32 = 0x400;

/// Modulus of the generator of the key table.
pub const LCG_MODULUS: u32 = 0x002A_AAAB;

/// Seed of the generator of the key table.
pub const LCG_SEED: u32 = 0x0010_0001;

/// 32-bit addition modulo 2^32.
pub open spec fn wadd(a: u32, b: u32) -> u32 {
    if a + b > u32::MAX {
        (a + b - 0x1_0000_0000) as u32
    } else {
        (a + b) as u32
    }
}

/// State of the key table's generator after `n` steps.
pub open spec fn lcg(n: nat) -> u32
    decreases n,
{
    if n == 0 {
        LCG_SEED
    } else {
        ((lcg((n - 1) as nat) as int * 125 + 3) % LCG_MODULUS as int) as u32
    }
}

/// Entry `k` of the key table: for `k = i + 256 * j`, the two states that the
/// generator yields at step `5 * i + j` make its high and low halves.
pub open spec fn key_table_entry(k: int) -> u32 {
    let n = (5 * (k % 256) + k / 256) as nat;
    ((lcg(2 * n + 1) & 0xFFFF) << 16) | (lcg(2 * n + 2) & 0xFFFF)
}

/// The whole key table.
#[verifier::opaque]
pub open spec fn key_table() -> Seq<u32> {
    Seq::new(KEY_TABLE_LEN as nat, |k: int| key_table_entry(k))
}

/// The key table, computed once and shared by the hash and the cipher.
pub struct KeyTable {
    entries: Vec<u32>,
}

impl KeyTable {
    /// The table holds exactly the words of `key_table()`.
    pub closed spec fn wf(&self) -> bool {
        self.entries@ == key_table() && self.entries@.len() == KEY_TABLE_LEN
    }

    /// Generates the table.
    pub fn new() -> (r: KeyTable)
        ensures
            r.wf(),
    {
        let entries = generate_key_table();
        proof {
            reveal(key_table);
        }
        KeyTable { entries }
    }

    /// Word `k` of the table.
    pub fn get(&self, k: usize) -> (r: u32)
        requires
            self.wf(),
            k < KEY_TABLE_LEN,
        ensures
            r == key_table()[k as int],
    {
        self.entries[k]
    }
}

/// Runs the generator and fills the key table.
pub fn generate_key_table() -> (r: Vec<u32>)
    ensures
        r@ == key_table(),
{
    let mut table: Vec<u32> = vec![0u32; KEY_TABLE_LEN];
    let mut seed: u32 = LCG_SEED;
    let mut i: usize = 0;
    while i < 0x100
        invariant
            0 <= i <= 0x100,
            table@.len() == KEY_TABLE_LEN,
            seed == lcg((10 * i) as nat),
            seed < LCG_MODULUS,
            forall|k: int| 0 <= k < KEY_TABLE_LEN && k % 256 < i ==> table@[k] == key_table_entry(k),
        decreases 0x100 - i,
    {
        let mut j: usize = 0;
        while j < 5
            invariant
                0 <= i < 0x100,
                0 <= j <= 5,
                table@.len() == KEY_TABLE_LEN,
                seed == lcg((2 * (5 * i + j)) as nat),
                seed < LCG_MODULUS,
                forall|k: int|
                    0 <= k < KEY_TABLE_LEN && (k % 256 < i || (k % 256 == i && k / 256 < j))
                        ==> table@[k] == key_table_entry(k),
            decreases 5 - j,
        {
            let index = i + j * 0x100;
            proof {
                lemma_fundamental_div_mod_converse(index as int, 256, j as int, i as int);
            }
            let ghost n = 5 * i + j;
            seed = (seed * 125 + 3) % LCG_MODULUS;
            assert(seed == lcg((2 * n + 1) as nat));
            let t1 = (seed & 0xFFFF) << 0x10;
            seed = (seed * 125 + 3) % LCG_MODULUS;
            assert(seed == lcg((2 * n + 2) as nat));
            let t2 = seed & 0xFFFF;
            table.set(index, t1 | t2);
            proof {
                assert forall|k: int|
                    0 <= k < KEY_TABLE_LEN && (k % 256 < i || (k % 256 == i && k / 256 < j + 1))
                        implies table@[k] == key_table_entry(k) by {
                    if k != index as int {
                        if k % 256 == i && k / 256 == j {
                            lemma_fundamental_div_mod_converse(k, 256, j as int, i as int);
                        }
                    }
                }
            }
            j = j + 1;
        }
        i = i + 1;
    }
    proof {
        reveal(key_table);
        assert forall|k: int| 0 <= k < KEY_TABLE_LEN implies table@[k] == key_table_entry(k) by {}
        assert(table@ =~= key_table());
    }
    table
}

/// Upper-case fold of a name byte, which also maps `/` to `\`.
pub open spec fn fold_byte(b: u8) -> u8 {
    if 0x61 <= b && b <= 0x7A {
        (b - 0x20) as u8
    } else if b == 0x2F {
        0x5C
    } else {
        b
    }
}

/// The fold of each byte of a name.
pub open spec fn fold_name(s: Seq<u8>) -> Seq<u8> {
    Seq::new(s.len(), |i: int| fold_byte(s[i]))
}

/// Upper-case fold of a name byte, which also maps `/` to `\`.
pub fn fold(b: u8) -> (r: u8)
    ensures
        r == fold_byte(b),
{
    if 0x61 <= b && b <= 0x7A {
        b - 0x20
    } else if b == 0x2F {
        0x5C
    } else {
        b
    }
}

/// The two running seeds of the name hash of kind `kind` after the bytes of `s`.
pub open spec fn hash_state(s: Seq<u8>, kind: u32) -> (u32, u32)
    decreases s.len(),
{
    if s.len() == 0 {
        (0x7FED_7FED, 0xEEEE_EEEE)
    } else {
        let (seed1, seed2) = hash_state(s.drop_last(), kind);
        let u = fold_byte(s.last()) as u32;
        let next1 = key_table()[kind + u] ^ wadd(seed1, seed2);
        let next2 = wadd(wadd(wadd(wadd(u, next1), seed2), seed2 << 5), 3);
        (next1, next2)
    }
}

/// The name hash of kind `kind` of the bytes `s`.
#[verifier::opaque]
pub open spec fn name_hash(s: Seq<u8>, kind: u32) -> u32 {
    hash_state(s, kind).0
}

/// A valid hash kind.
pub open spec fn is_hash_kind(kind: u32) -> bool {
    kind == HASH_TABLE_INDEX || kind == HASH_NAME_A || kind == HASH_NAME_B || kind == HASH_FILE_KEY
}

/// Hashes `source` with the hash of kind `kind`.
pub fn hash_string(table: &KeyTable, source: &[u8], kind: u32) -> (r: u32)
    requires
        table.wf(),
        is_hash_kind(kind),
    ensures
        r == name_hash(source@, kind),
{
    let mut seed1: u32 = 0x7FED_7FED;
    let mut seed2: u32 = 0xEEEE_EEEE;
    let mut i: usize = 0;
    while i < source.len()
        invariant
            table.wf(),
            is_hash_kind(kind),
            i <= source@.len(),
            (seed1, seed2) == hash_state(source@.subrange(0, i as int), kind),
        decreases source@.len() - i,
    {
        let upper = fold(source[i]) as u32;
        let mixed = table.get((kind + upper) as usize);
        let next1 = mixed ^ seed1.wrapping_add(seed2);
        let next2 = upper.wrapping_add(next1).wrapping_add(seed2).wrapping_add(seed2 << 5).wrapping_add(3);
        proof {
            let prefix = source@.subrange(0, i + 1);
            assert(prefix.drop_last() =~= source@.subrange(0, i as int));
            assert(prefix.last() == source@[i as int]);
            assert(hash_state(prefix, kind) == (next1, next2));
        }
        seed1 = next1;
        seed2 = next2;
        i = i + 1;
    }
    proof {
        assert(source@.subrange(0, i as int) =~= source@);
        reveal(name_hash);
    }
    seed1
}

/// Initial value of the cipher's second key.
pub const KEY2_SEED: u32 = 0xEEEE_EEEE;

/// The cipher's first key after one word.
pub open spec fn next_key(key: u32) -> u32 {
    wadd((!key) << 21u32, 0x1111_1111) | (key >> 11u32)
}

/// The cipher's second key mixed with the table word that the first key selects.
pub open spec fn mix_key2(key: u32, key2: u32) -> u32 {
    wadd(key2, key_table()[KEY_MIX_OFFSET + (key & 0xFF)])
}

/// The cipher's second key after a word whose plain value is `plain`.
pub open spec fn next_key2(plain: u32, mixed: u32) -> u32 {
    wadd(wadd(wadd(plain, mixed), mixed << 5u32), 3)
}

/// The stream cipher run over `data` from the key state `(key, key2)`: each
/// whole little-endian word is XORed with `key + key2`, and the key state
/// advances with the word's plain value; trailing bytes stay as they are.
pub open spec fn cipher_from(data: Seq<u8>, key: u32, key2: u32, encrypt: bool) -> Seq<u8>
    decreases data.len(),
{
    if data.len() < 4 {
        data
    } else {
        let mixed = mix_key2(key, key2);
        let word = u32_at(data, 0);
        let out = word ^ wadd(key, mixed);
        let plain = if encrypt {
            word
        } else {
            out
        };
        u32_bytes(out) + cipher_from(
            data.subrange(4, data.len() as int),
            next_key(key),
            next_key2(plain, mixed),
            encrypt,
        )
    }
}

/// `data` encrypted with `key`.
pub open spec fn encrypt_bytes(data: Seq<u8>, key: u32) -> Seq<u8> {
    cipher_from(data, key, KEY2_SEED, true)
}

/// `data` decrypted with `key`.
pub open spec fn decrypt_bytes(data: Seq<u8>, key: u32) -> Seq<u8> {
    cipher_from(data, key, KEY2_SEED, false)
}

pub proof fn lemma_cipher_len(data: Seq<u8>, key: u32, key2: u32, encrypt: bool)
    ensures
        cipher_from(data, key, key2, encrypt).len() == data.len(),
    decreases data.len(),
{
    if data.len() >= 4 {
        let mixed = mix_key2(key, key2);
        let out = u32_at(data, 0) ^ wadd(key, mixed);
        let plain = if encrypt {
            u32_at(data, 0)
        } else {
            out
        };
        lemma_cipher_len(
            data.subrange(4, data.len() as int),
            next_key(key),
            next_key2(plain, mixed),
            encrypt,
        );
    }
}

proof fn lemma_cipher_round_trip_from(data: Seq<u8>, key: u32, key2: u32)
    ensures
        cipher_from(cipher_from(data, key, key2, true), key, key2, false) == data,
    decreases data.len(),
{
    let enc = cipher_from(data, key, key2, true);
    if data.len() >= 4 {
        let mixed = mix_key2(key, key2);
        let word = u32_at(data, 0);
        let m = wadd(key, mixed);
        let out = word ^ m;
        let rest = data.subrange(4, data.len() as int);
        let nk = next_key(key);
        let nk2 = next_key2(word, mixed);
        let enc_rest = cipher_from(rest, nk, nk2, true);
        lemma_cipher_len(rest, nk, nk2, true);
        lemma_le32_of_bytes(out);
        assert(enc == u32_bytes(out) + enc_rest);
        assert(enc.subrange(4, enc.len() as int) =~= enc_rest);
        assert(u32_at(enc, 0) == out);
        assert((out ^ m) == word) by (bit_vector)
            requires
                out == word ^ m,
        ;
        lemma_cipher_round_trip_from(rest, nk, nk2);
        lemma_bytes_of_le32(data.subrange(0, 4));
        assert(u32_bytes(word) =~= data.subrange(0, 4));
        assert(data =~= data.subrange(0, 4) + rest);
    }
}

/// Decrypting what was encrypted with the same key gives back the data.
pub proof fn lemma_decrypt_encrypt(data: Seq<u8>, key: u32)
    ensures
        decrypt_bytes(encrypt_bytes(data, key), key) == data,
{
    lemma_cipher_round_trip_from(data, key, KEY2_SEED);
}

/// Runs the stream cipher over `data` in place.
fn apply_cipher(table: &KeyTable, data: &mut Vec<u8>, key: u32, encrypt: bool)
    requires
        table.wf(),
    ensures
        final(data)@ == cipher_from(old(data)@, key, KEY2_SEED, encrypt),
{
    let ghost start = data@;
    let len = data.len();
    let words = len / 4;
    let mut k: u32 = key;
    let mut k2: u32 = KEY2_SEED;
    let mut i: usize = 0;
    proof {
        assert(data@.subrange(0, 0) + data@.subrange(0, len as int) =~= start);
    }
    while i < words
        invariant
            table.wf(),
            data@.len() == len,
            len == start.len(),
            words == len / 4,
            i <= words,
            data@.subrange(4 * i, len as int) == start.subrange(4 * i, len as int),
            cipher_from(start, key, KEY2_SEED, encrypt) == data@.subrange(0, 4 * i)
                + cipher_from(data@.subrange(4 * i, len as int), k, k2, encrypt),
        decreases words - i,
    {
        let ghost before = data@;
        let pos = 4 * i;
        let low = k & 0xFF;
        assert(low <= 0xFF) by (bit_vector)
            requires
                low == k & 0xFF,
        ;
        let mixed = k2.wrapping_add(table.get((KEY_MIX_OFFSET + low) as usize));
        let word = read_u32(data.as_slice(), pos);
        let out = word ^ k.wrapping_add(mixed);
        let plain = if encrypt {
            word
        } else {
            out
        };
        put_u32(data, pos, out);
        proof {
            let rest = before.subrange(pos as int, len as int);
            assert(u32_at(rest, 0) == word);
            assert(rest.subrange(4, rest.len() as int) =~= before.subrange(pos + 4, len as int));
            assert(data@.subrange(pos + 4, len as int) =~= before.subrange(pos + 4, len as int));
            assert(data@.subrange(pos + 4, len as int) =~= start.subrange(pos + 4, len as int));
            assert(data@.subrange(0, pos + 4) =~= before.subrange(0, pos as int) + u32_bytes(out));
        }
        k = ((!k) << 0x15u32).wrapping_add(0x1111_1111) | (k >> 0x0Bu32);
        k2 = plain.wrapping_add(mixed).wrapping_add(mixed << 5u32).wrapping_add(3);
        i = i + 1;
        proof {
            assert(4 * i == pos + 4);
        }
    }
    proof {
        assert(data@.subrange(0, len as int) =~= data@);
    }
}

/// Encrypts `data` in place with `key`.
pub fn encrypt_mpq_block(table: &KeyTable, data: &mut Vec<u8>, key: u32)
    requires
        table.wf(),
    ensures
        final(data)@ == encrypt_bytes(old(data)@, key),
{
    apply_cipher(table, data, key, true);
}

/// Decrypts `data` in place with `key`.
pub fn decrypt_mpq_block(table: &KeyTable, data: &mut Vec<u8>, key: u32)
    requires
        table.wf(),
    ensures
        final(data)@ == decrypt_bytes(old(data)@, key),
{
    apply_cipher(table, data, key, false);
}

/// A path separator: `/` or `\`.
pub open spec fn is_separator(b: u8) -> bool {
    b == 0x2F || b == 0x5C
}

/// Where the last path component of `s` starts: just after its last separator.
pub open spec fn plain_start(s: Seq<u8>) -> int
    decreases s.len(),
{
    if s.len() == 0 {
        0
    } else if is_separator(s.last()) {
        s.len() as int
    } else {
        plain_start(s.drop_last())
    }
}

/// The last path component of `s`.
pub open spec fn plain_name(s: Seq<u8>) -> Seq<u8> {
    s.subrange(plain_start(s), s.len() as int)
}

pub proof fn lemma_plain_start_bounds(s: Seq<u8>)
    ensures
        0 <= plain_start(s) <= s.len(),
    decreases s.len(),
{
    if s.len() > 0 {
        lemma_plain_start_bounds(s.drop_last());
    }
}

/// The last path component of `input`.
pub fn get_plain_name(input: &[u8]) -> (r: &[u8])
    ensures
        r@ == plain_name(input@),
{
    let mut start: usize = 0;
    let mut i: usize = 0;
    while i < input.len()
        invariant
            i <= input@.len(),
            start as int == plain_start(input@.subrange(0, i as int)),
            start <= i,
        decreases input@.len() - i,
    {
        proof {
            let prefix = input@.subrange(0, i + 1);
            assert(prefix.drop_last() =~= input@.subrange(0, i as int));
            assert(prefix.last() == input@[i as int]);
        }
        if input[i] == 0x5C || input[i] == 0x2F {
            start = i + 1;
        }
        i = i + 1;
    }
    proof {
        assert(input@.subrange(0, i as int) =~= input@);
    }
    vstd::slice::slice_subrange(input, start, input.len())
}

/// The encryption key of the file stored under `name` at archive offset
/// `offset` with uncompressed size `size`.
#[verifier::opaque]
pub open spec fn file_key(name: Seq<u8>, offset: u32, size: u32, adjusted: bool) -> u32 {
    let key = name_hash(plain_name(name), HASH_FILE_KEY);
    if adjusted {
        wadd(key, offset) ^ size
    } else {
        key
    }
}

/// Derives the encryption key of a file from its name, and, where `adjusted`,
/// from its offset in the archive and its uncompressed size.
pub fn calculate_file_key(
    table: &KeyTable,
    file_name: &[u8],
    file_offset: u32,
    file_size: u32,
    adjusted: bool,
) -> (r: u32)
    requires
        table.wf(),
    ensures
        r == file_key(file_name@, file_offset, file_size, adjusted),
{
    reveal(file_key);
    let plain = get_plain_name(file_name);
    let key = hash_string(table, plain, HASH_FILE_KEY);
    if adjusted {
        key.wrapping_add(file_offset) ^ file_size
    } else {
        key
    }
}

proof fn lemma_fold_drop_last(s: Seq<u8>)
    requires
        s.len() > 0,
    ensures
        fold_name(s.drop_last()) == fold_name(s).drop_last(),
        fold_name(s).last() == fold_byte(s.last()),
{
    assert(fold_name(s.drop_last()) =~= fold_name(s).drop_last());
}

proof fn lemma_hash_state_fold(s1: Seq<u8>, s2: Seq<u8>, kind: u32)
    requires
        fold_name(s1) == fold_name(s2),
    ensures
        hash_state(s1, kind) == hash_state(s2, kind),
    decreases s1.len(),
{
    assert(s1.len() == fold_name(s1).len() && s2.len() == fold_name(s2).len());
    if s1.len() > 0 {
        lemma_fold_drop_last(s1);
        lemma_fold_drop_last(s2);
        lemma_hash_state_fold(s1.drop_last(), s2.drop_last(), kind);
    }
}

/// Names that fold alike hash alike, whatever the kind.
pub proof fn lemma_name_hash_fold(s1: Seq<u8>, s2: Seq<u8>, kind: u32)
    requires
        fold_name(s1) == fold_name(s2),
    ensures
        name_hash(s1, kind) == name_hash(s2, kind),
{
    reveal(name_hash);
    lemma_hash_state_fold(s1, s2, kind);
}

proof fn lemma_plain_start_fold(s1: Seq<u8>, s2: Seq<u8>)
    requires
        fold_name(s1) == fold_name(s2),
    ensures
        plain_start(s1) == plain_start(s2),
    decreases s1.len(),
{
    assert(s1.len() == fold_name(s1).len() && s2.len() == fold_name(s2).len());
    if s1.len() > 0 {
        lemma_fold_drop_last(s1);
        lemma_fold_drop_last(s2);
        assert(is_separator(s1.last()) == (fold_byte(s1.last()) == 0x5C));
        assert(is_separator(s2.last()) == (fold_byte(s2.last()) == 0x5C));
        lemma_plain_start_fold(s1.drop_last(), s2.drop_last());
    }
}

/// Names that fold alike give the same file key.
pub proof fn lemma_file_key_fold(s1: Seq<u8>, s2: Seq<u8>, offset: u32, size: u32, adjusted: bool)
    requires
        fold_name(s1) == fold_name(s2),
    ensures
        file_key(s1, offset, size, adjusted) == file_key(s2, offset, size, adjusted),
{
    reveal(file_key);
    lemma_plain_start_fold(s1, s2);
    lemma_plain_start_bounds(s1);
    let first_plain = plain_name(s1);
    let second_plain = plain_name(s2);
    assert(s1.len() == fold_name(s1).len() && s2.len() == fold_name(s2).len());
    assert(first_plain.len() == second_plain.len());
    assert forall|i: int| 0 <= i < first_plain.len() implies fold_name(first_plain)[i] == fold_name(second_plain)[i] by {
        let j = plain_start(s1) + i;
        assert(first_plain[i] == s1[j] && second_plain[i] == s2[j]);
        assert(fold_name(s1)[j] == fold_byte(s1[j]));
        assert(fold_name(s2)[j] == fold_byte(s2[j]));
        assert(fold_name(s1)[j] == fold_name(s2)[j]);
    }
    assert(fold_name(first_plain) =~= fold_name(second_plain));
    lemma_name_hash_fold(first_plain, second_plain, HASH_FILE_KEY);
}

} // verus!
