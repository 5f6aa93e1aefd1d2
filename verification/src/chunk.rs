//! Content-defined chunking with a buzhash rolling hash over a bounded
//! window: a cut falls where the hash of the trailing `WINDOW` bytes has its
//! low bits clear (and the chunk is at least `MIN_CHUNK_SIZE` long), or where
//! a chunk reaches `MAX_CHUNK_SIZE`, or at the end of the data. Each chunk is
//! named by the BLAKE3 digest of its bytes, so identical content anywhere
//! yields an identical chunk hash.
use vstd::prelude::*;
use vstd::slice::slice_subrange;

use crate::strings::{hex_lower, lemma_str_ge_total, str_ge_exec, to_hex};

verus! {

pub const MIN_CHUNK_SIZE: usize = 4 * 1024;

pub const AVG_CHUNK_SIZE: usize = 16 * 1024;

pub const MAX_CHUNK_SIZE: usize = 64 * 1024;

/// Bytes of rolling-hash history before a byte's contribution is cancelled.
pub const WINDOW: usize = 48;

/// A boundary is expected about every `AVG_CHUNK_SIZE` bytes (2^14).
pub const CUT_MASK: u64 = 16383;

/// BLAKE3's 32-byte digest of a byte string.
pub uninterp spec fn blake3_digest(data: Seq<u8>) -> Seq<u8>;

/// `blake3::hash`, handing back the digest as bytes.
#[verifier::external_body]
fn blake3_hash(data: &[u8]) -> (d: [u8; 32])
    ensures
        d@ == blake3_digest(data@),
{
    *blake3::hash(data).as_bytes()
}

/// The bytes are the chunk that `hash_hex` names: `hash_hex` is the
/// lowercase hex of their BLAKE3 digest, as chunk hashes are written.
pub fn chunk_matches(hash_hex: &str, data: &[u8]) -> (r: bool)
    ensures
        r == (hash_hex@ == hex_lower(blake3_digest(data@))),
{
    let digest = blake3_hash(data);
    let name = to_hex(digest.as_slice());
    proof {
        lemma_str_ge_total(hash_hex@, name@);
    }
    str_ge_exec(hash_hex, name.as_str()) && str_ge_exec(name.as_str(), hash_hex)
}

/// The little-endian value of the first eight bytes.
pub open spec fn le_u64(b: Seq<u8>) -> int {
    b[0] + b[1] * 0x100 + b[2] * 0x1_0000 + b[3] * 0x100_0000 + b[4] * 0x1_0000_0000 + b[5]
        * 0x100_0000_0000 + b[6] * 0x1_0000_0000_0000 + b[7] * 0x100_0000_0000_0000
}

/// The buzhash lookup table: entry `i` is the little-endian value of the
/// first eight bytes of the BLAKE3 digest of the single byte `i`.
pub open spec fn buzhash_table_spec() -> Seq<u64> {
    Seq::new(256, |i: int| le_u64(blake3_digest(seq![i as u8])) as u64)
}

/// Rotate left by one bit.
pub open spec fn rotl1(x: u64) -> u64 {
    (x << 1u64) | (x >> 63u64)
}

/// Rotate left by `WINDOW` (48) bits.
pub open spec fn rotl48(x: u64) -> u64 {
    (x << 48u64) | (x >> 16u64)
}

/// The rolling hash after byte `i`: the previous hash rotated by one, mixed
/// with the table value of byte `i`, with the value of the byte `WINDOW`
/// places back cancelled out.
pub open spec fn roll(d: Seq<u8>, t: Seq<u64>, i: nat) -> u64
    decreases i,
{
    let prev = if i == 0 {
        0u64
    } else {
        roll(d, t, (i - 1) as nat)
    };
    let h = rotl1(prev) ^ t[d[i as int] as int];
    if i >= 48 {
        h ^ rotl48(t[d[i - 48] as int])
    } else {
        h
    }
}

/// A chunk that began at `s` ends with byte `i`.
pub open spec fn is_cut(d: Seq<u8>, t: Seq<u64>, s: nat, i: nat) -> bool {
    let len = i - s + 1;
    ||| (i >= 48 && roll(d, t, i) & 16383u64 == 0 && len >= 4096)
    ||| len >= 65536
    ||| i == d.len() - 1
}

/// The `(offset, len)` of each chunk from a chunk that began at `s`, with
/// bytes from `i` on still to be looked at.
pub open spec fn cuts_from(d: Seq<u8>, t: Seq<u64>, s: nat, i: nat) -> Seq<(nat, nat)>
    decreases d.len() - i,
{
    if i >= d.len() {
        Seq::empty()
    } else if is_cut(d, t, s, i) {
        seq![(s, (i - s + 1) as nat)] + cuts_from(d, t, i + 1, i + 1)
    } else {
        cuts_from(d, t, s, i + 1)
    }
}

/// The `(offset, len)` of each chunk of `d`, in order.
pub open spec fn chunk_bounds(d: Seq<u8>) -> Seq<(nat, nat)> {
    cuts_from(d, buzhash_table_spec(), 0, 0)
}

proof fn lemma_cuts_tile(d: Seq<u8>, t: Seq<u64>, s: nat, i: nat)
    requires
        s <= i < d.len(),
        i - s < 65536,
    ensures
        ({
            let r = cuts_from(d, t, s, i);
            &&& r.len() > 0
            &&& r[0].0 == s
            &&& r.last().0 + r.last().1 == d.len()
            &&& forall|k: int| 0 <= k < r.len() ==> 1 <= #[trigger] r[k].1 <= 65536
            &&& forall|k: int| 0 <= k < r.len() - 1 ==> #[trigger] r[k].0 + r[k].1 == r[k + 1].0
        }),
    decreases d.len() - i,
{
    let r = cuts_from(d, t, s, i);
    if is_cut(d, t, s, i) {
        let head = seq![(s, (i - s + 1) as nat)];
        let rest = cuts_from(d, t, i + 1, i + 1);
        assert(r == head + rest);
        if i + 1 < d.len() {
            lemma_cuts_tile(d, t, i + 1, i + 1);
            assert forall|k: int| 0 <= k < r.len() implies 1 <= #[trigger] r[k].1 <= 65536 by {
                if k > 0 {
                    assert(r[k] == rest[k - 1]);
                }
            }
            assert forall|k: int| 0 <= k < r.len() - 1 implies #[trigger] r[k].0 + r[k].1 == r[k
                + 1].0 by {
                if k > 0 {
                    assert(r[k] == rest[k - 1]);
                    assert(r[k + 1] == rest[k]);
                }
            }
        } else {
            assert(rest.len() == 0);
            assert(r =~= head);
        }
    } else {
        lemma_cuts_tile(d, t, s, i + 1);
    }
}

proof fn lemma_cuts_min(d: Seq<u8>, t: Seq<u64>, s: nat, i: nat)
    requires
        s <= i <= d.len(),
    ensures
        forall|k: int|
            0 <= k < cuts_from(d, t, s, i).len() - 1 ==> #[trigger] cuts_from(d, t, s, i)[k].1
                >= 4096,
    decreases d.len() - i,
{
    let r = cuts_from(d, t, s, i);
    if i < d.len() {
        if is_cut(d, t, s, i) {
            let head = seq![(s, (i - s + 1) as nat)];
            let rest = cuts_from(d, t, i + 1, i + 1);
            assert(r == head + rest);
            lemma_cuts_min(d, t, i + 1, i + 1);
            if i + 1 >= d.len() {
                assert(rest.len() == 0);
            } else {
                assert(i != d.len() - 1);
                assert(i - s + 1 >= 4096);
            }
            assert forall|k: int| 0 <= k < r.len() - 1 implies #[trigger] r[k].1 >= 4096 by {
                if k > 0 {
                    assert(r[k] == rest[k - 1]);
                } else {
                    assert(r[0] == head[0]);
                }
            }
        } else {
            assert(r == cuts_from(d, t, s, i + 1));
            lemma_cuts_min(d, t, s, i + 1);
        }
    }
}

proof fn lemma_offsets_grow(r: Seq<(nat, nat)>, k: int)
    requires
        1 <= k < r.len(),
        forall|j: int| 0 <= j < r.len() - 1 ==> #[trigger] r[j].0 + r[j].1 == r[j + 1].0,
    ensures
        r[k].0 >= r[1].0,
    decreases k,
{
    if k > 1 {
        lemma_offsets_grow(r, k - 1);
        assert(r[k - 1].0 + r[k - 1].1 == r[k].0);
    }
}

/// Law (no chunk but the last is short): a content-defined cut is only taken
/// once a chunk has reached `MIN_CHUNK_SIZE` bytes, so every chunk except the
/// last is at least that long; data of at most `MIN_CHUNK_SIZE` bytes is a
/// single chunk.
pub proof fn law_chunks_at_least_min(d: Seq<u8>)
    ensures
        forall|k: int|
            0 <= k < chunk_bounds(d).len() - 1 ==> #[trigger] chunk_bounds(d)[k].1
                >= MIN_CHUNK_SIZE,
        0 < d.len() <= MIN_CHUNK_SIZE ==> chunk_bounds(d).len() == 1,
{
    lemma_cuts_min(d, buzhash_table_spec(), 0, 0);
    if 0 < d.len() <= MIN_CHUNK_SIZE {
        lemma_cuts_tile(d, buzhash_table_spec(), 0, 0);
        let r = chunk_bounds(d);
        if r.len() > 1 {
            assert(r[0].1 >= 4096);
            assert(r[0].0 == 0);
            assert(r[0].0 + r[0].1 == r[1].0);
            assert(r.last().0 + r.last().1 == d.len());
            assert(r[1].1 >= 1);
            lemma_offsets_grow(r, r.len() - 1);
        }
    }
}

proof fn lemma_cuts_points(d: Seq<u8>, t: Seq<u64>, s: nat, i: nat)
    requires
        s <= i <= d.len(),
        forall|j: nat| s <= j < i ==> !#[trigger] is_cut(d, t, s, j),
    ensures
        ({
            let r = cuts_from(d, t, s, i);
            &&& forall|k: int|
                0 <= k < r.len() ==> #[trigger] is_cut(d, t, r[k].0, (r[k].0 + r[k].1 - 1) as nat)
            &&& forall|k: int, j: nat|
                0 <= k < r.len() && r[k].0 <= j < r[k].0 + r[k].1 - 1 ==> !#[trigger] is_cut(
                    d,
                    t,
                    r[k].0,
                    j,
                )
        }),
    decreases d.len() - i,
{
    let r = cuts_from(d, t, s, i);
    if i < d.len() {
        if is_cut(d, t, s, i) {
            let head = seq![(s, (i - s + 1) as nat)];
            let rest = cuts_from(d, t, i + 1, i + 1);
            assert(r == head + rest);
            lemma_cuts_points(d, t, i + 1, i + 1);
            assert forall|k: int| 0 <= k < r.len() implies #[trigger] is_cut(
                d,
                t,
                r[k].0,
                (r[k].0 + r[k].1 - 1) as nat,
            ) by {
                if k > 0 {
                    assert(r[k] == rest[k - 1]);
                    assert(is_cut(d, t, rest[k - 1].0, (rest[k - 1].0 + rest[k - 1].1 - 1) as nat));
                } else {
                    assert(r[0] == head[0]);
                    assert(r[0].0 == s && r[0].1 == i - s + 1);
                    assert((r[0].0 + r[0].1 - 1) as nat == i);
                }
            }
            assert forall|k: int, j: nat|
                0 <= k < r.len() && r[k].0 <= j < r[k].0 + r[k].1 - 1 implies !#[trigger] is_cut(
                d,
                t,
                r[k].0,
                j,
            ) by {
                if k > 0 {
                    assert(r[k] == rest[k - 1]);
                } else {
                    assert(r[0] == head[0]);
                }
            }
        } else {
            assert(r == cuts_from(d, t, s, i + 1));
            assert forall|j: nat| s <= j < i + 1 implies !#[trigger] is_cut(d, t, s, j) by {
                if j == i {
                } else {
                }
            }
            lemma_cuts_points(d, t, s, i + 1);
        }
    }
}

/// Law (chunks end exactly at the first cut point): a chunk ends at its
/// first byte where a cut is due, and nowhere earlier. A cut is due at the
/// end of the data, where the chunk reaches `MAX_CHUNK_SIZE` bytes, or once
/// the chunk has at least `MIN_CHUNK_SIZE` bytes at a byte past the first
/// `WINDOW` whose rolling hash has the `CUT_MASK` bits clear.
pub proof fn law_chunk_cut_points(d: Seq<u8>)
    ensures
        forall|k: int|
            0 <= k < chunk_bounds(d).len() - 1 && #[trigger] chunk_bounds(d)[k].1 < MAX_CHUNK_SIZE
                ==> {
                let e = (chunk_bounds(d)[k].0 + chunk_bounds(d)[k].1 - 1) as nat;
                &&& e >= WINDOW
                &&& roll(d, buzhash_table_spec(), e) & CUT_MASK == 0
                &&& chunk_bounds(d)[k].1 >= MIN_CHUNK_SIZE
            },
        forall|k: int, j: nat|
            #![trigger chunk_bounds(d)[k], roll(d, buzhash_table_spec(), j)]
            0 <= k < chunk_bounds(d).len() && chunk_bounds(d)[k].0 <= j < chunk_bounds(d)[k].0
                + chunk_bounds(d)[k].1 - 1 ==> {
                &&& j - chunk_bounds(d)[k].0 + 1 < MAX_CHUNK_SIZE
                &&& !(j >= WINDOW && roll(d, buzhash_table_spec(), j) & CUT_MASK == 0 && j
                    - chunk_bounds(d)[k].0 + 1 >= MIN_CHUNK_SIZE)
            },
{
    let t = buzhash_table_spec();
    let r = chunk_bounds(d);
    lemma_cuts_points(d, t, 0, 0);
    if d.len() > 0 {
        lemma_cuts_tile(d, t, 0, 0);
    }
    assert forall|k: int|
        0 <= k < r.len() - 1 && #[trigger] r[k].1 < MAX_CHUNK_SIZE implies {
        let e = (r[k].0 + r[k].1 - 1) as nat;
        &&& e >= WINDOW
        &&& roll(d, t, e) & CUT_MASK == 0
        &&& r[k].1 >= MIN_CHUNK_SIZE
    } by {
        assert(is_cut(d, t, r[k].0, (r[k].0 + r[k].1 - 1) as nat));
        assert(r[k].0 + r[k].1 == r[k + 1].0);
        assert(r[k + 1].0 + r[k + 1].1 <= d.len()) by {
            lemma_chunk_end_within(r, d.len() as int, k + 1);
        }
    }
    assert forall|k: int, j: nat|
        #![trigger r[k], roll(d, t, j)]
        0 <= k < r.len() && r[k].0 <= j < r[k].0 + r[k].1 - 1 implies {
        &&& j - r[k].0 + 1 < MAX_CHUNK_SIZE
        &&& !(j >= WINDOW && roll(d, t, j) & CUT_MASK == 0 && j - r[k].0 + 1
            >= MIN_CHUNK_SIZE)
    } by {
        assert(!is_cut(d, t, r[k].0, j));
    }
}

proof fn lemma_chunk_end_within(r: Seq<(nat, nat)>, n: int, k: int)
    requires
        0 <= k < r.len(),
        r.last().0 + r.last().1 == n,
        forall|j: int| 0 <= j < r.len() - 1 ==> #[trigger] r[j].0 + r[j].1 == r[j + 1].0,
        forall|j: int| 0 <= j < r.len() ==> 1 <= #[trigger] r[j].1,
    ensures
        r[k].0 + r[k].1 <= n,
    decreases r.len() - k,
{
    if k < r.len() - 1 {
        lemma_chunk_end_within(r, n, k + 1);
        assert(r[k].0 + r[k].1 == r[k + 1].0);
    }
}

/// Rotate left by `k` bits, one bit at a time.
pub open spec fn rotn(x: u64, k: nat) -> u64
    decreases k,
{
    if k == 0 {
        x
    } else {
        rotl1(rotn(x, (k - 1) as nat))
    }
}

/// The XOR of the table values of bytes `i, i-1, ..., i-k+1`, the byte `j`
/// places back rotated by `j`.
pub open spec fn window_xor(d: Seq<u8>, t: Seq<u64>, i: int, k: nat) -> u64
    decreases k,
{
    if k == 0 {
        0u64
    } else {
        window_xor(d, t, i, (k - 1) as nat) ^ rotn(t[d[i - (k - 1)] as int], (k - 1) as nat)
    }
}

/// The same terms as `window_xor` for positions `i-1, ..., i-k`, each rotated
/// one bit further.
spec fn shifted_xor(d: Seq<u8>, t: Seq<u64>, i: int, k: nat) -> u64
    decreases k,
{
    if k == 0 {
        0u64
    } else {
        shifted_xor(d, t, i, (k - 1) as nat) ^ rotn(t[d[i - k] as int], k)
    }
}

proof fn lemma_rotl1_xor(a: u64, b: u64)
    ensures
        rotl1(a ^ b) == rotl1(a) ^ rotl1(b),
{
    assert(((a ^ b) << 1u64) | ((a ^ b) >> 63u64) == (((a << 1u64) | (a >> 63u64)) ^ ((b << 1u64)
        | (b >> 63u64)))) by (bit_vector);
}

proof fn lemma_xor_facts(a: u64, b: u64, c: u64)
    ensures
        (a ^ b) ^ c == a ^ (b ^ c),
        (a ^ b) ^ b == a,
        0u64 ^ a == a,
        a ^ 0u64 == a,
{
    assert((a ^ b) ^ c == a ^ (b ^ c)) by (bit_vector);
    assert((a ^ b) ^ b == a) by (bit_vector);
    assert(0u64 ^ a == a) by (bit_vector);
    assert(a ^ 0u64 == a) by (bit_vector);
}

proof fn lemma_rotl1_step(x: u64, k: u64)
    requires
        1 <= k <= 62,
    ensures
        rotl1((x << k) | (x >> ((64 - k) as u64))) == (x << ((k + 1) as u64)) | (x >> ((63 - k) as u64)),
{
    let y = (x << k) | (x >> ((64 - k) as u64));
    let k1: u64 = (k + 1) as u64;
    let m: u64 = (64 - k) as u64;
    let m1: u64 = (63 - k) as u64;
    assert(((y << 1u64) | (y >> 63u64)) == (x << k1) | (x >> m1)) by (bit_vector)
        requires
            y == (x << k) | (x >> m),
            1 <= k <= 62,
            k1 == k + 1,
            m == 64 - k,
            m1 == 63 - k,
    ;
}

proof fn lemma_rotn_closed(x: u64, k: nat)
    requires
        1 <= k <= 63,
    ensures
        rotn(x, k) == (x << (k as u64)) | (x >> ((64 - k) as u64)),
    decreases k,
{
    if k == 1 {
        assert(rotn(x, 0) == x);
    } else {
        lemma_rotn_closed(x, (k - 1) as nat);
        lemma_rotl1_step(x, (k - 1) as u64);
    }
}

proof fn lemma_rotl1_window(d: Seq<u8>, t: Seq<u64>, i: int, k: nat)
    ensures
        rotl1(window_xor(d, t, i - 1, k)) == shifted_xor(d, t, i, k),
    decreases k,
{
    if k == 0 {
        assert(rotl1(0u64) == 0u64) by (bit_vector);
    } else {
        lemma_rotl1_window(d, t, i, (k - 1) as nat);
        let a = window_xor(d, t, i - 1, (k - 1) as nat);
        let b = rotn(t[d[i - 1 - (k - 1)] as int], (k - 1) as nat);
        lemma_rotl1_xor(a, b);
        assert(i - 1 - (k - 1) == i - k);
    }
}

proof fn lemma_window_split(d: Seq<u8>, t: Seq<u64>, i: int, k: nat)
    ensures
        window_xor(d, t, i, k + 1) == t[d[i] as int] ^ shifted_xor(d, t, i, k),
    decreases k,
{
    let x = t[d[i] as int];
    assert(window_xor(d, t, i, k + 1) == window_xor(d, t, i, k) ^ rotn(t[d[i - k] as int], k));
    if k == 0 {
        lemma_xor_facts(x, x, x);
        assert(rotn(x, 0) == x);
        assert(window_xor(d, t, i, 0) == 0u64);
        assert(shifted_xor(d, t, i, 0) == 0u64);
    } else {
        lemma_window_split(d, t, i, (k - 1) as nat);
        let sh = shifted_xor(d, t, i, (k - 1) as nat);
        let z = rotn(t[d[i - k] as int], k);
        lemma_xor_facts(x, sh, z);
        assert(shifted_xor(d, t, i, k) == sh ^ z);
    }
}

/// The rolling hash after byte `i` is the XOR of the table values of the
/// last (up to) 48 bytes, the byte `j` places back rotated left by `j`.
proof fn lemma_roll_is_window(d: Seq<u8>, t: Seq<u64>, i: nat)
    requires
        i < d.len(),
    ensures
        roll(d, t, i) == window_xor(d, t, i as int, if i < 48 { i + 1 } else { 48 }),
    decreases i,
{
    let x = t[d[i as int] as int];
    if i == 0 {
        assert(rotl1(0u64) == 0u64) by (bit_vector);
        lemma_xor_facts(x, x, x);
        assert(rotn(x, 0) == x);
        assert(window_xor(d, t, 0, 1) == window_xor(d, t, 0, 0) ^ rotn(x, 0));
        assert(roll(d, t, 0) == rotl1(0u64) ^ x);
    } else {
        lemma_roll_is_window(d, t, (i - 1) as nat);
        let m: nat = if i - 1 < 48 { i } else { 48 };
        lemma_rotl1_window(d, t, i as int, m);
        let sm = shifted_xor(d, t, i as int, m);
        let h = sm ^ x;
        assert(rotl1(roll(d, t, (i - 1) as nat)) == sm);
        if i < 48 {
            lemma_window_split(d, t, i as int, m);
            assert(sm ^ x == x ^ sm) by (bit_vector);
            assert(roll(d, t, i) == h);
        } else {
            let y = t[d[i - 48] as int];
            lemma_rotn_closed(y, 48);
            let r = rotn(y, 48);
            assert(r == rotl48(y));
            lemma_window_split(d, t, i as int, 47);
            let s47 = shifted_xor(d, t, i as int, 47);
            assert(sm == s47 ^ r);
            assert(roll(d, t, i) == h ^ rotl48(y));
            assert(((s47 ^ r) ^ x) ^ r == x ^ s47) by (bit_vector);
        }
    }
}

/// The byte `j` places before position `i`.
pub open spec fn back(d: Seq<u8>, i: int, j: int) -> u8 {
    d[i - j]
}

proof fn lemma_window_same(d1: Seq<u8>, d2: Seq<u8>, t: Seq<u64>, i1: int, i2: int, k: nat)
    requires
        forall|j: int| 0 <= j < k ==> #[trigger] back(d1, i1, j) == back(d2, i2, j),
    ensures
        window_xor(d1, t, i1, k) == window_xor(d2, t, i2, k),
    decreases k,
{
    if k > 0 {
        lemma_window_same(d1, d2, t, i1, i2, (k - 1) as nat);
        assert(back(d1, i1, k - 1) == back(d2, i2, k - 1));
    }
}

/// Law (bounded window): once 48 bytes have been seen, the rolling hash
/// depends only on the last 48 bytes, not on anything earlier in the data
/// or on where earlier chunks were cut. This is what lets chunk boundaries
/// re-synchronise after an edit.
pub proof fn law_rolling_hash_window(d1: Seq<u8>, d2: Seq<u8>, t: Seq<u64>, i1: nat, i2: nat)
    requires
        47 <= i1 < d1.len(),
        47 <= i2 < d2.len(),
        forall|j: int| 0 <= j < 48 ==> #[trigger] back(d1, i1 as int, j) == back(d2, i2 as int, j),
    ensures
        roll(d1, t, i1) == roll(d2, t, i2),
{
    lemma_roll_is_window(d1, t, i1);
    lemma_roll_is_window(d2, t, i2);
    lemma_window_same(d1, d2, t, i1 as int, i2 as int, 48);
}

#[derive(Debug, Clone, PartialEq, Eq)]
pub struct Chunk {
    /// BLAKE3 digest of the chunk's bytes.
    pub hash: [u8; 32],
    pub offset: usize,
    pub len: usize,
}

/// The buzhash lookup table.
fn buzhash_table() -> (t: Vec<u64>)
    ensures
        t@ == buzhash_table_spec(),
{
    let mut t: Vec<u64> = Vec::new();
    let mut i: usize = 0;
    while i < 256
        invariant
            i <= 256,
            t@.len() == i,
            forall|j: int| 0 <= j < i ==> t@[j] == buzhash_table_spec()[j],
        decreases 256 - i,
    {
        let one = [i as u8];
        let h = blake3_hash(&one);
        assert(one@ =~= seq![i as u8]);
        let v: u64 = (h[0] as u64) + (h[1] as u64) * 0x100 + (h[2] as u64) * 0x1_0000 + (h[3] as u64)
            * 0x100_0000 + (h[4] as u64) * 0x1_0000_0000 + (h[5] as u64) * 0x100_0000_0000 + (
        h[6] as u64) * 0x1_0000_0000_0000 + (h[7] as u64) * 0x100_0000_0000_0000;
        t.push(v);
        i = i + 1;
    }
    assert(t@ =~= buzhash_table_spec());
    t
}

/// One step of the rolling hash: the hash after byte `i`, given the hash
/// after byte `i - 1`.
fn roll_step(table: &Vec<u64>, data: &[u8], i: usize, prev: u64) -> (h: u64)
    requires
        table@.len() == 256,
        i < data@.len(),
        prev == (if i == 0 {
            0u64
        } else {
            roll(data@, table@, (i - 1) as nat)
        }),
    ensures
        h == roll(data@, table@, i as nat),
{
    let mut h: u64 = ((prev << 1u64) | (prev >> 63u64)) ^ table[data[i] as usize];
    if i >= WINDOW {
        let leaving = table[data[i - WINDOW] as usize];
        h = h ^ ((leaving << 48u64) | (leaving >> 16u64));
    }
    h
}

/// The chunk bounds of non-empty data tile it in order with chunks of
/// 1 to 65536 bytes.
proof fn lemma_bounds_tile(d: Seq<u8>)
    requires
        d.len() > 0,
    ensures
        ({
            let r = chunk_bounds(d);
            &&& r.len() > 0
            &&& r[0].0 == 0
            &&& r.last().0 + r.last().1 == d.len()
            &&& forall|k: int| 0 <= k < r.len() ==> 1 <= #[trigger] r[k].1 <= 65536
            &&& forall|k: int| 0 <= k < r.len() - 1 ==> #[trigger] r[k].0 + r[k].1 == r[k + 1].0
        }),
{
    lemma_cuts_tile(d, buzhash_table_spec(), 0, 0);
}

/// The `(offset, len)` of each chunk.
pub open spec fn bounds_of(cs: Seq<Chunk>) -> Seq<(nat, nat)> {
    cs.map_values(|c: Chunk| (c.offset as nat, c.len as nat))
}

/// Every chunk is named by the digest of its bytes.
pub open spec fn hashes_match(d: Seq<u8>, cs: Seq<Chunk>) -> bool {
    forall|k: int|
        0 <= k < cs.len() ==> (#[trigger] cs[k]).hash@ == blake3_digest(
            d.subrange(cs[k].offset as int, cs[k].offset + cs[k].len),
        )
}

proof fn lemma_chunks_match_bounds(d: Seq<u8>, cs: Seq<Chunk>)
    requires
        bounds_of(cs) == chunk_bounds(d),
    ensures
        cs.len() == chunk_bounds(d).len(),
        forall|k: int|
            0 <= k < cs.len() ==> #[trigger] cs[k].offset == chunk_bounds(d)[k].0 && cs[k].len
                == chunk_bounds(d)[k].1,
        d.len() > 0 ==> {
            &&& cs.len() > 0
            &&& cs[0].offset == 0
            &&& cs.last().offset + cs.last().len == d.len()
            &&& forall|k: int| 0 <= k < cs.len() ==> 1 <= #[trigger] cs[k].len <= MAX_CHUNK_SIZE
            &&& forall|k: int|
                0 <= k < cs.len() - 1 ==> #[trigger] cs[k].offset + cs[k].len == cs[k + 1].offset
        },
{
    let b = chunk_bounds(d);
    assert(cs.len() == b.len());
    assert forall|k: int| 0 <= k < cs.len() implies #[trigger] cs[k].offset == b[k].0 && cs[k].len
        == b[k].1 by {
        assert(bounds_of(cs)[k] == b[k]);
    }
    if d.len() > 0 {
        lemma_bounds_tile(d);
        assert forall|k: int| 0 <= k < cs.len() - 1 implies #[trigger] cs[k].offset + cs[k].len
            == cs[k + 1].offset by {
            assert(bounds_of(cs)[k] == b[k]);
            assert(bounds_of(cs)[k + 1] == b[k + 1]);
        }
        assert forall|k: int| 0 <= k < cs.len() implies 1 <= #[trigger] cs[k].len
            <= MAX_CHUNK_SIZE by {
            assert(bounds_of(cs)[k] == b[k]);
        }
        assert(bounds_of(cs)[0] == b[0]);
        assert(bounds_of(cs)[cs.len() - 1] == b[b.len() - 1]);
    }
}

/// Split `data` into content-defined chunks. Deterministic: the chunks are
/// a function of the bytes alone. They tile the data in order, none is empty
/// or longer than `MAX_CHUNK_SIZE`, and each is named by the BLAKE3 digest of
/// its bytes.
pub fn chunk(data: &[u8]) -> (r: Vec<Chunk>)
    ensures
        bounds_of(r@) == chunk_bounds(data@),
        hashes_match(data@, r@),
        r@.len() == chunk_bounds(data@).len(),
        forall|k: int|
            0 <= k < r@.len() ==> #[trigger] r@[k].offset == chunk_bounds(data@)[k].0 && r@[k].len
                == chunk_bounds(data@)[k].1,
        data@.len() == 0 ==> r@.len() == 0,
        forall|k: int| 0 <= k < r@.len() - 1 ==> MIN_CHUNK_SIZE <= #[trigger] r@[k].len,
        0 < data@.len() <= MIN_CHUNK_SIZE ==> r@.len() == 1,
        data@.len() > 0 ==> {
            &&& r@.len() > 0
            &&& r@[0].offset == 0
            &&& r@.last().offset + r@.last().len == data@.len()
            &&& forall|k: int| 0 <= k < r@.len() ==> 1 <= #[trigger] r@[k].len <= MAX_CHUNK_SIZE
            &&& forall|k: int|
                0 <= k < r@.len() - 1 ==> #[trigger] r@[k].offset + r@[k].len == r@[k + 1].offset
        },
{
    let ghost d = data@;
    let ghost tb = buzhash_table_spec();
    let mut chunks: Vec<Chunk> = Vec::new();
    if data.len() == 0 {
        assert(bounds_of(chunks@) =~= chunk_bounds(d));
        return chunks;
    }
    let table = buzhash_table();
    let mut start: usize = 0;
    let mut hash: u64 = 0;
    let mut i: usize = 0;
    assert(bounds_of(chunks@) + cuts_from(d, tb, 0, 0) =~= chunk_bounds(d));
    while i < data.len()
        invariant
            d == data@,
            tb == buzhash_table_spec(),
            table@ == tb,
            tb.len() == 256,
            start <= i <= d.len(),
            i < d.len() ==> i - start < MAX_CHUNK_SIZE,
            i == d.len() ==> start == d.len(),
            hash == (if i == 0 {
                0u64
            } else {
                roll(d, tb, (i - 1) as nat)
            }),
            bounds_of(chunks@) + cuts_from(d, tb, start as nat, i as nat) == chunk_bounds(d),
            hashes_match(d, chunks@),
        decreases d.len() - i,
    {
        hash = roll_step(&table, data, i, hash);
        let len = i - start + 1;
        let window_full = i >= WINDOW;
        let at_boundary = window_full && (hash & CUT_MASK) == 0 && len >= MIN_CHUNK_SIZE;
        let forced = len >= MAX_CHUNK_SIZE;
        let is_last_byte = i == data.len() - 1;
        let ghost before = cuts_from(d, tb, start as nat, i as nat);
        assert(is_cut(d, tb, start as nat, i as nat) == (at_boundary || forced || is_last_byte));
        if at_boundary || forced || is_last_byte {
            let slice = slice_subrange(data, start, i + 1);
            let digest = blake3_hash(slice);
            let ghost after = cuts_from(d, tb, (i + 1) as nat, (i + 1) as nat);
            let ghost old_chunks = chunks@;
            let c = Chunk { hash: digest, offset: start, len: len };
            chunks.push(c);
            proof {
                assert(before == seq![(start as nat, len as nat)] + after);
                assert(bounds_of(chunks@) =~= bounds_of(old_chunks).push(
                    (start as nat, len as nat),
                ));
                assert(bounds_of(chunks@) + after =~= bounds_of(old_chunks) + before);
                assert forall|k: int| 0 <= k < chunks@.len() implies (#[trigger] chunks@[k]).hash@
                    == blake3_digest(
                    d.subrange(chunks@[k].offset as int, chunks@[k].offset + chunks@[k].len),
                ) by {
                    if k < old_chunks.len() {
                        assert(chunks@[k] == old_chunks[k]);
                    }
                }
            }
            start = i + 1;
        }
        i = i + 1;
    }
    proof {
        assert(cuts_from(d, tb, start as nat, i as nat) =~= Seq::<(nat, nat)>::empty());
        assert(bounds_of(chunks@) =~= chunk_bounds(d));
        lemma_chunks_match_bounds(d, chunks@);
        law_chunks_at_least_min(d);
        law_chunk_cut_points(d);
    }
    chunks
}

} // verus!
