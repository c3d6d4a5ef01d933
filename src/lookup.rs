//! Why the writer's hash table answers the reader's lookups: open addressing
//! places every key on its probe path, and that path holds no blank slot.
use vstd::prelude::*;
use crate::creator::{
    blank_from, build_hash_table, following_slot, home_slot, insert_key, table_size_for, size_from,
    lemma_table_size_bound, lemma_blank_from,
};
use crate::header::exp2;
use crate::creator::key_of;
use crate::table::find_slot;
use crate::table::{HashEntry, blank_entry, is_terminator, next_slot, probe, HASH_TABLE_EMPTY_ENTRY};

verus! {

/// The slot reached from `h` after `m` steps of the writer's probe.
pub open spec fn walk(h: int, m: nat, len: nat) -> int
    decreases m,
{
    if m == 0 {
        h
    } else {
        following_slot(walk(h, (m - 1) as nat, len), len)
    }
}

/// The slot holds a file.
pub open spec fn used(e: HashEntry) -> bool {
    e.block_index != HASH_TABLE_EMPTY_ENTRY
}

/// The number of used slots.
pub open spec fn count_used(t: Seq<HashEntry>) -> nat
    decreases t.len(),
{
    if t.len() == 0 {
        0
    } else {
        count_used(t.drop_last()) + if used(t.last()) {
            1nat
        } else {
            0nat
        }
    }
}

/// The entry that the writer makes for key `k` and block `j`.
pub open spec fn key_entry(k: (u32, u32, u32), j: u32) -> HashEntry {
    HashEntry { hash_a: k.0, hash_b: k.1, locale: 0, platform: 0, block_index: j }
}

/// Key `k` of block `j` stands in `t` on its probe path from its home slot,
/// and every slot before it on that path is used.
pub open spec fn placed(t: Seq<HashEntry>, k: (u32, u32, u32), j: u32) -> bool {
    exists|m: nat|
        m < t.len() && t[walk(home_slot(k.2, t.len()), m, t.len())] == key_entry(k, j) && forall|m2: nat|
            m2 < m ==> used(#[trigger] t[walk(home_slot(k.2, t.len()), m2, t.len())])
}

proof fn lemma_walk_range(h: int, m: nat, len: nat)
    requires
        0 <= h < len,
    ensures
        0 <= walk(h, m, len) < len,
        h + m < len ==> walk(h, m, len) == h + m,
        len <= h + m < 2 * len ==> walk(h, m, len) == h + m - len,
    decreases m,
{
    if m > 0 {
        lemma_walk_range(h, (m - 1) as nat, len);
    }
}

proof fn lemma_walk_covers(h: int, i: int, len: nat)
    requires
        0 <= h < len,
        0 <= i < len,
    ensures
        exists|m: nat| m < len && walk(h, m, len) == i,
{
    if i >= h {
        lemma_walk_range(h, (i - h) as nat, len);
        assert(walk(h, (i - h) as nat, len) == i);
    } else {
        lemma_walk_range(h, (len - h + i) as nat, len);
        assert(walk(h, (len - h + i) as nat, len) == i);
    }
}

proof fn lemma_blank_from_walk(t: Seq<HashEntry>, h: int, steps: nat)
    requires
        0 <= h < t.len(),
        steps <= t.len(),
    ensures
        ({
            let r = blank_from(t, walk(h, steps, t.len()), steps);
            &&& r == -1 ==> forall|m: nat| steps <= m < t.len() ==> used(#[trigger] t[walk(h, m, t.len())])
            &&& r >= 0 ==> exists|m: nat|
                steps <= m < t.len() && r == walk(h, m, t.len()) && !used(t[r]) && forall|m2: nat|
                    steps <= m2 < m ==> used(#[trigger] t[walk(h, m2, t.len())])
        }),
    decreases t.len() - steps,
{
    let len = t.len();
    lemma_walk_range(h, steps, len);
    if steps < len {
        let w = walk(h, steps, len);
        if t[w].block_index != HASH_TABLE_EMPTY_ENTRY {
            assert(walk(h, steps + 1, len) == following_slot(w, len));
            lemma_blank_from_walk(t, h, steps + 1);
            let r = blank_from(t, walk(h, steps, len), steps);
            lemma_blank_from(t, walk(h, steps, len), steps);
            assert(r == blank_from(t, walk(h, steps + 1, len), steps + 1));
            if r == -1 {
                assert forall|m: nat| steps <= m < len implies used(#[trigger] t[walk(h, m, len)]) by {
                    if m > steps {
                        assert(steps + 1 <= m);
                    }
                }
            } else {
                let m = choose|m: nat|
                    steps + 1 <= m < len && r == walk(h, m, len) && !used(t[r]) && forall|m2: nat|
                        steps + 1 <= m2 < m ==> used(#[trigger] t[walk(h, m2, len)]);
                assert forall|m2: nat| steps <= m2 < m implies used(#[trigger] t[walk(h, m2, len)]) by {
                    if m2 > steps {
                        assert(steps + 1 <= m2);
                    } else {
                        assert(m2 == steps);
                        assert(used(t[w]));
                    }
                }
            }
        } else {
            assert(!used(t[w]));
        }
    }
}

proof fn lemma_count_all_used(t: Seq<HashEntry>)
    requires
        forall|i: int| 0 <= i < t.len() ==> used(#[trigger] t[i]),
    ensures
        count_used(t) == t.len(),
    decreases t.len(),
{
    if t.len() > 0 {
        assert forall|i: int| 0 <= i < t.drop_last().len() implies used(#[trigger] t.drop_last()[i]) by {
            assert(t.drop_last()[i] == t[i]);
        }
        lemma_count_all_used(t.drop_last());
    }
}

proof fn lemma_count_blank(n: nat)
    ensures
        count_used(Seq::new(n, |i: int| blank_entry())) == 0,
    decreases n,
{
    if n > 0 {
        assert(Seq::new(n, |i: int| blank_entry()).drop_last() =~= Seq::new((n - 1) as nat, |i: int| blank_entry()));
        lemma_count_blank((n - 1) as nat);
    }
}

proof fn lemma_count_update(t: Seq<HashEntry>, q: int, e: HashEntry)
    requires
        0 <= q < t.len(),
        !used(t[q]),
        used(e),
    ensures
        count_used(t.update(q, e)) == count_used(t) + 1,
    decreases t.len(),
{
    let u = t.update(q, e);
    if q == t.len() - 1 {
        assert(u.drop_last() =~= t.drop_last());
    } else {
        assert(u.drop_last() =~= t.drop_last().update(q, e));
        lemma_count_update(t.drop_last(), q, e);
    }
}

proof fn lemma_placed_kept(t: Seq<HashEntry>, k: (u32, u32, u32), j: u32, q: int, e: HashEntry)
    requires
        0 <= home_slot(k.2, t.len()) < t.len(),
        placed(t, k, j),
        j != HASH_TABLE_EMPTY_ENTRY,
        0 <= q < t.len(),
        !used(t[q]),
    ensures
        placed(t.update(q, e), k, j),
{
    let len = t.len();
    let u = t.update(q, e);
    let h = home_slot(k.2, len);
    let m = choose|m: nat|
        m < len && t[walk(h, m, len)] == key_entry(k, j) && forall|m2: nat| m2 < m ==> used(#[trigger] t[walk(h, m2, len)]);
    let p = walk(h, m, len);
    lemma_walk_range(h, m, len);
    assert(used(t[p]));
    assert(p != q);
    assert(u[p] == key_entry(k, j));
    assert forall|m2: nat| m2 < m implies used(#[trigger] u[walk(h, m2, len)]) by {
        lemma_walk_range(h, m2, len);
        assert(used(t[walk(h, m2, len)]));
        assert(walk(h, m2, len) != q);
    }
    assert(u.len() == len);
    assert(home_slot(k.2, u.len()) == h);
    assert(m < u.len() && u[walk(home_slot(k.2, u.len()), m, u.len())] == key_entry(k, j));
}

/// While fewer keys than slots have gone in, every key stands on its probe
/// path, and exactly one slot is used per key.
proof fn lemma_build_placed(keys: Seq<(u32, u32, u32)>, size: nat)
    requires
        keys.len() < size,
        size <= 0x8000_0000,
        size > 0,
        forall|h: u32| (#[trigger] home_slot(h, size)) < size,
    ensures
        ({
            let t = build_hash_table(keys, size);
            &&& t.len() == size
            &&& count_used(t) == keys.len()
            &&& forall|j: int| 0 <= j < keys.len() ==> placed(t, #[trigger] keys[j], j as u32)
        }),
    decreases keys.len(),
{
    if keys.len() == 0 {
        lemma_count_blank(size);
    } else {
        let prev_keys = keys.drop_last();
        lemma_build_placed(prev_keys, size);
        let t = build_hash_table(prev_keys, size);
        let k = keys.last();
        let j = (keys.len() - 1) as u32;
        let h = home_slot(k.2, size);
        assert(0 <= h < size) by {
            assert(home_slot(k.2, size) < size);
        }
        assert(walk(h, 0, size) == h);
        lemma_blank_from_walk(t, h, 0);
        let q = blank_from(t, h, 0);
        lemma_blank_from(t, h, 0);
        if q == -1 {
            assert forall|i: int| 0 <= i < t.len() implies used(#[trigger] t[i]) by {
                lemma_walk_covers(h, i, size);
                let m = choose|m: nat| m < size && walk(h, m, size) == i;
                assert(used(t[walk(h, m, size)]));
            }
            lemma_count_all_used(t);
            assert(false);
        }
        let e = key_entry(k, j);
        let u = t.update(q, e);
        assert(t.len() == size);
        assert(insert_key(t, k, j) == u);
        assert(build_hash_table(keys, size) == u);
        lemma_count_update(t, q, e);
        assert forall|i: int| 0 <= i < keys.len() implies placed(u, #[trigger] keys[i], i as u32) by {
            if i < keys.len() - 1 {
                assert(keys[i] == prev_keys[i]);
                assert(home_slot(keys[i].2, size) < size);
                lemma_placed_kept(t, keys[i], i as u32, q, e);
            } else {
                let m = choose|m: nat|
                    0 <= m < size && q == walk(h, m, size) && !used(t[q]) && forall|m2: nat|
                        0 <= m2 < m ==> used(#[trigger] t[walk(h, m2, size)]);
                assert(u[walk(h, m, size)] == key_entry(k, j));
                assert forall|m2: nat| m2 < m implies used(#[trigger] u[walk(h, m2, size)]) by {
                    lemma_walk_range(h, m2, size);
                    assert(used(t[walk(h, m2, size)]));
                    assert(walk(h, m2, size) != q);
                }
            }
        }
    }
}

proof fn lemma_shift_double(k: u32)
    requires
        k < 31,
    ensures
        (1u32 << ((k + 1) as u32)) == 2 * (1u32 << k),
        (1u32 << k) <= 0x4000_0000,
{
    assert((1u32 << ((k + 1) as u32)) == 2 * (1u32 << k) && (1u32 << k) <= 0x4000_0000) by (bit_vector)
        requires
            k < 31,
    ;
}

proof fn lemma_exp2_shift(k: u32)
    requires
        k <= 31,
    ensures
        exp2(k as nat) == (1u32 << k) as nat,
    decreases k,
{
    if k == 0 {
        assert((1u32 << 0u32) == 1) by (bit_vector);
    } else {
        lemma_exp2_shift((k - 1) as u32);
        lemma_shift_double((k - 1) as u32);
    }
}

proof fn lemma_mask_step(i: u32, len: u32, k: u32)
    requires
        k <= 31,
        len == 1u32 << k,
        i < len,
    ensures
        ((i + 1) as u32) & ((len - 1) as u32) == (if i + 1 == len {
            0u32
        } else {
            (i + 1) as u32
        }),
{
    assert(((i + 1) as u32) & ((len - 1) as u32) == (if i + 1 == len {
        0u32
    } else {
        (i + 1) as u32
    })) by (bit_vector)
        requires
            k <= 31,
            len == 1u32 << k,
            i < len,
    ;
}

proof fn lemma_mask_below(x: u32, m: u32)
    ensures
        x & m <= m,
{
    assert(x & m <= m) by (bit_vector);
}

proof fn lemma_size_from_pow2(c: nat, n: nat, k: u32)
    requires
        k <= 31,
        c == exp2(k as nat),
        1 <= c,
        n < 0x4000_0000,
        c <= 4 || c <= 2 * n,
    ensures
        exists|k2: u32| k2 <= 31 && size_from(c, n) == exp2(k2 as nat),
    decreases n + 1 - c,
{
    if c <= n && 2 * c <= n {
        assert(k < 31) by {
            if k == 31 {
                lemma_exp2_shift(31);
                assert((1u32 << 31u32) == 0x8000_0000) by (bit_vector);
            }
        }
        assert(exp2((k + 1) as nat) == 2 * exp2(k as nat));
        lemma_size_from_pow2(2 * c, n, (k + 1) as u32);
    } else if c <= n {
        assert(exp2((k + 1) as nat) == 2 * exp2(k as nat));
        assert(k < 31) by {
            if k == 31 {
                lemma_exp2_shift(31);
                assert((1u32 << 31u32) == 0x8000_0000) by (bit_vector);
            }
        }
        assert(size_from(c, n) == exp2((k + 1) as nat));
    } else {
        assert(size_from(c, n) == exp2(k as nat));
    }
}

proof fn lemma_probe_finds(t: Seq<HashEntry>, a: u32, b: u32, h: int, step: nat, m: nat, k: u32)
    requires
        k <= 31,
        t.len() == (1u32 << k),
        0 <= h < t.len(),
        step <= m < t.len(),
        forall|m2: nat| m2 < m ==> used(#[trigger] t[walk(h, m2, t.len())]),
        used(t[walk(h, m, t.len())]),
        t[walk(h, m, t.len())].hash_a == a,
        t[walk(h, m, t.len())].hash_b == b,
        t[walk(h, m, t.len())].locale == 0,
    ensures
        probe(t, a, b, walk(h, step, t.len()) as u32, step) matches Some(s) && t[s as int].hash_a == a
            && t[s as int].hash_b == b,
    decreases m - step,
{
    let len = t.len();
    let i = walk(h, step, len);
    lemma_walk_range(h, step, len);
    assert(i as u32 as int == i);
    if step < m {
        assert(used(t[i]));
        assert(!is_terminator(t[i]));
        if !(t[i].hash_a == a && t[i].hash_b == b && t[i].locale == 0) {
            lemma_mask_step(i as u32, len as u32, k);
            assert(next_slot(i as u32, len) as int == following_slot(i, len));
            assert(walk(h, step + 1, len) == following_slot(i, len));
            lemma_probe_finds(t, a, b, h, step + 1, m, k);
        }
    }
}

/// Every key that the writer inserts can be retrieved by the reader's lookup:
/// the table keeps a blank slot (its load factor stays below one), and the
/// probe from the key's home slot reaches an entry with both of the key's
/// hashes before any terminator. In particular a lookup of a name whose key
/// was inserted finds an entry with that name's hashes.
pub proof fn lemma_inserted_keys_found(keys: Seq<(u32, u32, u32)>, j: int, name: Seq<u8>)
    requires
        0 <= j < keys.len(),
        keys.len() < 0x4000_0000,
    ensures
        ({
            let size = table_size_for(keys.len());
            let t = build_hash_table(keys, size);
            &&& keys.len() < size
            &&& t.len() == size
            &&& probe(t, keys[j].0, keys[j].1, keys[j].2 & ((size - 1) as u32), 0) matches Some(s)
                && t[s as int].hash_a == keys[j].0 && t[s as int].hash_b == keys[j].1
            &&& keys[j] == key_of(name) ==> (find_slot(t, name) matches Some(s) && t[s as int].hash_a
                == keys[j].0 && t[s as int].hash_b == keys[j].1)
        }),
{
    let n = keys.len();
    let size = table_size_for(n);
    lemma_table_size_bound(n);
    lemma_exp2_shift(2);
    assert((1u32 << 2u32) == 4) by (bit_vector);
    lemma_size_from_pow2(4, n, 2);
    let k = choose|k2: u32| k2 <= 31 && size_from(4, n) == exp2(k2 as nat);
    lemma_exp2_shift(k);
    assert(size == (1u32 << k));
    assert forall|h: u32| (#[trigger] home_slot(h, size)) < size by {
        lemma_mask_below(h, (size - 1) as u32);
    }
    lemma_build_placed(keys, size);
    let t = build_hash_table(keys, size);
    let key = keys[j];
    assert(placed(t, key, j as u32));
    let h = home_slot(key.2, size);
    let m = choose|m: nat|
        m < t.len() && t[walk(h, m, t.len())] == key_entry(key, j as u32) && forall|m2: nat|
            m2 < m ==> used(#[trigger] t[walk(h, m2, t.len())]);
    assert(used(t[walk(h, m, size)]));
    lemma_probe_finds(t, key.0, key.1, h, 0, m, k);
    assert(walk(h, 0, size) == h);
    assert(h as u32 == key.2 & ((size - 1) as u32));
    if key == key_of(name) {
        assert(find_slot(t, name) == probe(t, key.0, key.1, key.2 & ((size - 1) as u32), 0));
    }
}

} // verus!
