//! The meet-in-the-middle solver: a table of three-round partial
//! encryptions under every low key, a partition of the high-key space
//! among workers, and the search of one range of high keys.
use crate::cipher::{
    decrypt_block, decrypt_spec, encrypt_block, encrypt_spec, forward, lemma_backward_forward,
    lemma_add_key_involution, lemma_forward_bound, lemma_forward_prefix, BLOCK_LIMIT, KEYSIZE,
};
use fnv::FnvHashMap;
use vstd::arithmetic::div_mod::{lemma_div_is_ordered, lemma_div_multiples_vanish};
use vstd::prelude::*;

verus! {

/// fnv's hasher, carried opaquely inside the map's hasher builder.
#[verifier::external_type_specification]
#[verifier::external_body]
pub struct ExFnvHasher(fnv::FnvHasher);

/// std's default hasher builder, here over fnv's hasher.
#[verifier::external_type_specification]
#[verifier::external_body]
#[verifier::reject_recursive_types(H)]
pub struct ExBuildHasherDefault<H>(std::hash::BuildHasherDefault<H>);

/// Midpoints to low keys, hashed with fnv.
pub type LowKeyMap = FnvHashMap<u64, u32>;

/// Number of low keys (three key bytes).
pub const LOW_KEYS: u32 = 0x100_0000;

/// Number of high keys (four key bytes).
pub const HIGH_KEYS: u64 = 0x1_0000_0000;

/// The three bytes of a low key, most significant first.
pub open spec fn low_bytes(low: u32) -> Seq<u8> {
    seq![(low >> 16u32) as u8, (low >> 8u32) as u8, low as u8]
}

/// The four bytes of a high key, most significant first.
pub open spec fn high_bytes(high: u32) -> Seq<u8> {
    seq![(high >> 24u32) as u8, (high >> 16u32) as u8, (high >> 8u32) as u8, high as u8]
}

/// The seven key bytes of a 56-bit key value, most significant first.
pub open spec fn key_bytes_spec(key: u64) -> Seq<u8> {
    seq![
        (key >> 48u64) as u8,
        (key >> 40u64) as u8,
        (key >> 32u64) as u8,
        (key >> 24u64) as u8,
        (key >> 16u64) as u8,
        (key >> 8u64) as u8,
        key as u8,
    ]
}

/// The 56-bit key value made of a low key and a high key.
pub open spec fn key_value(low: u32, high: u32) -> u64 {
    ((low as u64) << 32u64) | (high as u64)
}

/// The midpoint reached from a plaintext by three rounds under a low key.
pub open spec fn partial_encrypt(plain: u64, low: u32) -> u64 {
    encrypt_spec(plain, low_bytes(low), 3)
}

/// The midpoint reached from a ciphertext by undoing the whitening and
/// three rounds under a high key.
pub open spec fn partial_decrypt(crypt: u64, high: u32) -> u64 {
    decrypt_spec(crypt, high_bytes(high), 3)
}

/// Whether full encryption under `key` maps every plaintext to its ciphertext.
pub open spec fn consistent(key: Seq<u8>, plains: Seq<u64>, crypts: Seq<u64>) -> bool {
    forall|i: int| 0 <= i < plains.len() ==> encrypt_spec(#[trigger] plains[i], key, 6) == crypts[i]
}

/// `index` maps each midpoint that some low key below `n` reaches from
/// `plain` to the largest such low key.
pub open spec fn indexes(index: Map<u64, u32>, plain: u64, n: nat) -> bool {
    &&& forall|v: u64| #[trigger]
        index.contains_key(v) <==> exists|l: u32| l < n && #[trigger] partial_encrypt(plain, l) == v
    &&& forall|v: u64| #[trigger]
        index.contains_key(v) ==> index[v] < n && partial_encrypt(plain, index[v]) == v && forall|l: u32|
            index[v] < l < n ==> #[trigger] partial_encrypt(plain, l) != v
}

/// Whether high key `high`, with the low key that `index` gives for its
/// midpoint, is consistent with all pairs.
pub open spec fn candidate_ok(index: Map<u64, u32>, plains: Seq<u64>, crypts: Seq<u64>, high: u32) -> bool {
    let mid = partial_decrypt(crypts[0], high);
    index.contains_key(mid) && consistent(low_bytes(index[mid]) + high_bytes(high), plains, crypts)
}

/// Relies on `fnv::FnvHashMap` (std's `HashMap` with fnv's hasher) made by
/// `with_capacity_and_hasher`: a new map is empty.
#[verifier::external_body]
fn fnv_map_new(capacity: usize) -> (r: LowKeyMap)
    ensures
        forall|k: u64| !r@.contains_key(k),
{
    FnvHashMap::with_capacity_and_hasher(capacity, Default::default())
}

/// Relies on `HashMap::insert` over fnv's hasher: afterwards the key maps
/// to the new value and every other entry is kept.
#[verifier::external_body]
fn fnv_map_insert(m: &mut LowKeyMap, k: u64, v: u32)
    ensures
        final(m)@ == old(m)@.insert(k, v),
{
    m.insert(k, v);
}

/// Relies on `HashMap::get` over fnv's hasher: the value of the key, if any.
#[verifier::external_body]
fn fnv_map_get(m: &LowKeyMap, k: u64) -> (r: Option<u32>)
    ensures
        r == (if m@.contains_key(k) { Some(m@[k]) } else { None }),
{
    m.get(&k).copied()
}

/// The table from three-round midpoints of the first plaintext to low keys.
/// It keeps one low key per midpoint, the last inserted: where a larger low
/// key meets the same midpoint as the true one, the search misses the true
/// key at that high key, and checking every pair keeps it from accepting a
/// wrong one.
pub struct LowKeyIndex {
    map: LowKeyMap,
}

impl View for LowKeyIndex {
    type V = Map<u64, u32>;

    closed spec fn view(&self) -> Map<u64, u32> {
        self.map@
    }
}

impl LowKeyIndex {
    /// Every low key in the table fits in three bytes.
    pub open spec fn wf(&self) -> bool {
        forall|v: u64| #[trigger] self@.contains_key(v) ==> self@[v] < LOW_KEYS
    }

    /// The low key recorded for midpoint `mid`, if any.
    pub fn get(&self, mid: u64) -> (r: Option<u32>)
        ensures
            r == (if self@.contains_key(mid) { Some(self@[mid]) } else { None }),
    {
        fnv_map_get(&self.map, mid)
    }
}


/// The high key of a key value: its low 32 bits.
pub open spec fn high_of(key: u64) -> u32 {
    (key & 0xFFFF_FFFF) as u32
}

/// The low key of a key value: the bits above the high key.
pub open spec fn low_of(key: u64) -> u32 {
    (key >> 32u64) as u32
}

/// The low key made of the first three bytes of a key.
pub open spec fn low_of_bytes(key: Seq<u8>) -> u32 {
    ((key[0] as u32) << 16u32) | ((key[1] as u32) << 8u32) | (key[2] as u32)
}

/// The high key made of the last four bytes of a 7-byte key.
pub open spec fn high_of_bytes(key: Seq<u8>) -> u32 {
    ((key[3] as u32) << 24u32) | ((key[4] as u32) << 16u32) | ((key[5] as u32) << 8u32) | (key[6] as u32)
}

/// The first high key of worker `i` among `workers`; worker `i` takes
/// `range_start(workers, i) .. range_start(workers, i + 1)`.
pub open spec fn range_start(workers: nat, i: nat) -> nat {
    i * (HIGH_KEYS as nat) / workers
}

/// The three bytes of a low key, most significant first.
pub fn low_key_bytes(low: u32) -> (r: Vec<u8>)
    ensures
        r@ == low_bytes(low),
{
    vec![(low >> 16u32) as u8, (low >> 8u32) as u8, low as u8]
}

/// The four bytes of a high key, most significant first.
pub fn high_key_bytes(high: u32) -> (r: Vec<u8>)
    ensures
        r@ == high_bytes(high),
{
    vec![(high >> 24u32) as u8, (high >> 16u32) as u8, (high >> 8u32) as u8, high as u8]
}

/// The seven key bytes: the low key's three, then the high key's four.
pub fn full_key_bytes(low: u32, high: u32) -> (r: Vec<u8>)
    ensures
        r@ == low_bytes(low) + high_bytes(high),
{
    let r = vec![
        (low >> 16u32) as u8,
        (low >> 8u32) as u8,
        low as u8,
        (high >> 24u32) as u8,
        (high >> 16u32) as u8,
        (high >> 8u32) as u8,
        high as u8,
    ];
    assert(r@ =~= low_bytes(low) + high_bytes(high));
    r
}

/// Whether full encryption under `key` maps every plaintext to its ciphertext.
pub fn key_matches_pairs(key: &[u8], plains: &Vec<u64>, crypts: &Vec<u64>) -> (r: bool)
    requires
        key@.len() == KEYSIZE,
        plains@.len() == crypts@.len(),
    ensures
        r == consistent(key@, plains@, crypts@),
{
    let mut i: usize = 0;
    while i < plains.len()
        invariant
            key@.len() == KEYSIZE,
            plains@.len() == crypts@.len(),
            i <= plains@.len(),
            forall|j: int| 0 <= j < i ==> encrypt_spec(#[trigger] plains@[j], key@, 6) == crypts@[j],
        decreases plains@.len() - i,
    {
        if encrypt_block(plains[i], key, KEYSIZE - 1) != crypts[i] {
            return false;
        }
        i = i + 1;
    }
    true
}

/// Indexes the three-round midpoints of `plain` under the low keys
/// `0 .. count`; where two low keys meet the same midpoint the larger one
/// is kept.
pub fn build_partial_index(plain: u64, count: u32) -> (r: LowKeyIndex)
    requires
        count <= LOW_KEYS,
    ensures
        r.wf(),
        indexes(r@, plain, count as nat),
{
    let mut map = fnv_map_new(count as usize);
    let mut low: u32 = 0;
    assert(map@ =~= Map::empty());
    while low < count
        invariant
            low <= count <= LOW_KEYS,
            indexes(map@, plain, low as nat),
        decreases count - low,
    {
        let key = low_key_bytes(low);
        let mid = encrypt_block(plain, key.as_slice(), 3);
        let ghost before = map@;
        fnv_map_insert(&mut map, mid, low);
        proof {
            assert(mid == partial_encrypt(plain, low));
            assert forall|v: u64| #[trigger]
                map@.contains_key(v) <==> exists|l: u32| l < low + 1 && #[trigger] partial_encrypt(plain, l) == v by {
                if v == mid {
                    assert(partial_encrypt(plain, low) == v);
                } else if before.contains_key(v) {
                    let l = choose|l: u32| l < low && #[trigger] partial_encrypt(plain, l) == v;
                    assert(l < low + 1 && partial_encrypt(plain, l) == v);
                } else if exists|l: u32| l < low + 1 && #[trigger] partial_encrypt(plain, l) == v {
                    let l = choose|l: u32| l < low + 1 && #[trigger] partial_encrypt(plain, l) == v;
                    assert(l < low);
                }
            }
        }
        low = low + 1;
    }
    LowKeyIndex { map }
}

/// Indexes the three-round midpoints of `plain` under every low key.
pub fn build_index(plain: u64) -> (r: LowKeyIndex)
    ensures
        r.wf(),
        indexes(r@, plain, LOW_KEYS as nat),
{
    build_partial_index(plain, LOW_KEYS)
}

/// The high keys `r.0 .. r.1` of worker `index` among `workers`.
pub fn worker_range(workers: u32, index: u32) -> (r: (u64, u64))
    requires
        1 <= workers,
        index < workers,
    ensures
        r.0 == range_start(workers as nat, index as nat),
        r.1 == range_start(workers as nat, index as nat + 1),
{
    let w = workers as u64;
    let i = index as u64;
    assert(i * HIGH_KEYS < 0x1_0000_0000_0000_0000 && (i + 1) * HIGH_KEYS < 0x1_0000_0000_0000_0000)
        by (nonlinear_arith)
        requires
            i < w,
            w < 0x1_0000_0000,
            HIGH_KEYS == 0x1_0000_0000,
    ;
    ((i * HIGH_KEYS) / w, ((i + 1) * HIGH_KEYS) / w)
}

proof fn lemma_key_value_parts(low: u32, high: u32)
    requires
        low < LOW_KEYS,
    ensures
        high_of(key_value(low, high)) == high,
        low_of(key_value(low, high)) == low,
        key_bytes_spec(key_value(low, high)) == low_bytes(low) + high_bytes(high),
{
    let k = key_value(low, high);
    assert((k & 0xFFFF_FFFF) as u32 == high && (k >> 32u64) as u32 == low
        && (k >> 48u64) as u8 == (low >> 16u32) as u8 && (k >> 40u64) as u8 == (low >> 8u32) as u8
        && (k >> 32u64) as u8 == low as u8 && (k >> 24u64) as u8 == (high >> 24u32) as u8
        && (k >> 16u64) as u8 == (high >> 16u32) as u8 && (k >> 8u64) as u8 == (high >> 8u32) as u8
        && k as u8 == high as u8) by (bit_vector)
        requires
            low < 0x100_0000,
            k == ((low as u64) << 32u64) | (high as u64),
    ;
    assert(key_bytes_spec(k) =~= low_bytes(low) + high_bytes(high));
}

/// Searches the high keys `start .. end` in order. For each, the first
/// ciphertext is decrypted back to the midpoint, the index gives a low key
/// for it, and the full key is tried on every pair; the first key that
/// fits them all is returned as a 56-bit value, low key above high key.
pub fn search_range(start: u64, end: u64, index: &LowKeyIndex, plains: &Vec<u64>, crypts: &Vec<u64>) -> (r:
    Option<u64>)
    requires
        start <= end <= HIGH_KEYS,
        plains@.len() == crypts@.len(),
        plains@.len() >= 1,
        index.wf(),
    ensures
        r is None ==> forall|h: u64| start <= h < end ==> !#[trigger] candidate_ok(index@, plains@, crypts@, h as u32),
        r matches Some(k) ==> {
            &&& start <= high_of(k) < end
            &&& candidate_ok(index@, plains@, crypts@, high_of(k))
            &&& low_of(k) == index@[partial_decrypt(crypts@[0], high_of(k))]
            &&& k == key_value(low_of(k), high_of(k))
            &&& forall|h: u64| start <= h < high_of(k) ==> !#[trigger] candidate_ok(index@, plains@, crypts@, h as u32)
            &&& consistent(key_bytes_spec(k), plains@, crypts@)
        },
{
    let mut high: u64 = start;
    while high < end
        invariant
            start <= high <= end <= HIGH_KEYS,
            plains@.len() == crypts@.len(),
            plains@.len() >= 1,
            index.wf(),
            forall|h: u64| start <= h < high ==> !#[trigger] candidate_ok(index@, plains@, crypts@, h as u32),
        decreases end - high,
    {
        let h = high as u32;
        let hb = high_key_bytes(h);
        let mid = decrypt_block(crypts[0], hb.as_slice(), 3);
        match index.get(mid) {
            Some(low) => {
                let key = full_key_bytes(low, h);
                if key_matches_pairs(key.as_slice(), plains, crypts) {
                    let k = ((low as u64) << 32u64) | high;
                    proof {
                        assert(h as u64 == high);
                        lemma_key_value_parts(low, h);
                    }
                    return Some(k);
                }
            },
            None => {},
        }
        high = high + 1;
    }
    None
}


/// Why a set of known pairs cannot be handed to the solver.
#[derive(Debug, Clone, Copy, PartialEq, Eq)]
pub enum PairError {
    /// The plaintexts and ciphertexts differ in number.
    LengthMismatch,
    /// There is no pair at all.
    NoPairs,
    /// A plaintext or ciphertext has bits above the 40-bit block.
    OutOfRange,
}

pub open spec fn all_blocks(v: Seq<u64>) -> bool {
    forall|i: int| 0 <= i < v.len() ==> #[trigger] v[i] < BLOCK_LIMIT
}

/// Checks that the known pairs are usable: as many plaintexts as
/// ciphertexts, at least one pair, every value a 40-bit block.
pub fn validate_pairs(plains: &Vec<u64>, crypts: &Vec<u64>) -> (r: Result<(), PairError>)
    ensures
        r == Err::<(), PairError>(PairError::LengthMismatch) <==> plains@.len() != crypts@.len(),
        r == Err::<(), PairError>(PairError::NoPairs) <==> plains@.len() == crypts@.len() && plains@.len() == 0,
        r == Err::<(), PairError>(PairError::OutOfRange) <==> plains@.len() == crypts@.len() && plains@.len() > 0
            && !(all_blocks(plains@) && all_blocks(crypts@)),
        r is Ok <==> plains@.len() == crypts@.len() && plains@.len() > 0 && all_blocks(plains@) && all_blocks(
            crypts@,
        ),
{
    if plains.len() != crypts.len() {
        return Err(PairError::LengthMismatch);
    }
    if plains.len() == 0 {
        return Err(PairError::NoPairs);
    }
    let mut i: usize = 0;
    while i < plains.len()
        invariant
            plains@.len() == crypts@.len(),
            i <= plains@.len(),
            forall|j: int| 0 <= j < i ==> #[trigger] plains@[j] < BLOCK_LIMIT && crypts@[j] < BLOCK_LIMIT,
        decreases plains@.len() - i,
    {
        if plains[i] >= BLOCK_LIMIT || crypts[i] >= BLOCK_LIMIT {
            assert(!(all_blocks(plains@) && all_blocks(crypts@))) by {
                assert(!(plains@[i as int] < BLOCK_LIMIT && crypts@[i as int] < BLOCK_LIMIT));
            }
            return Err(PairError::OutOfRange);
        }
        i = i + 1;
    }
    assert forall|j: int| 0 <= j < crypts@.len() implies #[trigger] crypts@[j] < BLOCK_LIMIT by {
        assert(plains@[j] < BLOCK_LIMIT);
    }
    Ok(())
}

proof fn lemma_range_start_monotone(w: nat, i: nat, j: nat)
    requires
        1 <= w,
        i <= j,
    ensures
        range_start(w, i) <= range_start(w, j),
{
    let n = HIGH_KEYS as nat;
    assert(i * n <= j * n) by (nonlinear_arith)
        requires
            i <= j,
    ;
    lemma_div_is_ordered((i * n) as int, (j * n) as int, w as int);
}

proof fn lemma_range_end(w: nat)
    requires
        1 <= w,
    ensures
        range_start(w, w) == HIGH_KEYS,
        range_start(w, 0) == 0,
{
    lemma_div_multiples_vanish(HIGH_KEYS as int, w as int);
}

/// Whether some worker among `w` has `x` in its range.
pub open spec fn covered(w: nat, x: nat) -> bool {
    exists|i: nat| i < w && range_start(w, i) <= x < #[trigger] range_start(w, i + 1)
}

proof fn lemma_range_find(w: nat, x: nat, i: nat)
    requires
        1 <= w,
        i < w,
        range_start(w, i) <= x < HIGH_KEYS,
    ensures
        covered(w, x),
    decreases w - i,
{
    if x < range_start(w, i + 1) {
        assert(range_start(w, i) <= x < range_start(w, i + 1));
    } else {
        lemma_range_end(w);
        lemma_range_find(w, x, i + 1);
    }
}

/// The worker ranges of any positive number of workers cover the high-key
/// space `0 .. 2^32` exactly: they start at 0, end at `2^32`, follow one
/// another without gap, and a range ends no later than any later one starts.
pub proof fn lemma_partition_cover(workers: nat)
    requires
        workers >= 1,
    ensures
        range_start(workers, 0) == 0,
        range_start(workers, workers) == HIGH_KEYS,
        forall|i: nat, j: nat|
            i <= j <= workers ==> #[trigger] range_start(workers, i) <= #[trigger] range_start(workers, j),
        forall|x: nat| x < HIGH_KEYS ==> #[trigger] covered(workers, x),
        forall|i: nat, j: nat|
            i < j < workers ==> #[trigger] range_start(workers, i + 1) <= #[trigger] range_start(workers, j),
{
    lemma_range_end(workers);
    assert forall|i: nat, j: nat| i <= j <= workers implies #[trigger] range_start(workers, i)
        <= #[trigger] range_start(workers, j) by {
        lemma_range_start_monotone(workers, i, j);
    }
    assert forall|x: nat| x < HIGH_KEYS implies #[trigger] covered(workers, x) by {
        lemma_range_find(workers, x, 0);
    }
    assert forall|i: nat, j: nat| i < j < workers implies #[trigger] range_start(workers, i + 1)
        <= #[trigger] range_start(workers, j) by {
        lemma_range_start_monotone(workers, i + 1, j);
    }
}

proof fn lemma_key_split(key: Seq<u8>)
    requires
        key.len() == KEYSIZE,
    ensures
        low_of_bytes(key) < LOW_KEYS,
        low_bytes(low_of_bytes(key)) == key.subrange(0, 3),
        high_bytes(high_of_bytes(key)) == key.subrange(3, 7),
        low_bytes(low_of_bytes(key)) + high_bytes(high_of_bytes(key)) == key,
{
    let (k0, k1, k2, k3, k4, k5, k6) = (key[0], key[1], key[2], key[3], key[4], key[5], key[6]);
    let l = low_of_bytes(key);
    let h = high_of_bytes(key);
    assert(l < 0x100_0000 && (l >> 16u32) as u8 == k0 && (l >> 8u32) as u8 == k1 && l as u8 == k2)
        by (bit_vector)
        requires
            l == ((k0 as u32) << 16u32) | ((k1 as u32) << 8u32) | (k2 as u32),
    ;
    assert((h >> 24u32) as u8 == k3 && (h >> 16u32) as u8 == k4 && (h >> 8u32) as u8 == k5 && h as u8 == k6)
        by (bit_vector)
        requires
            h == ((k3 as u32) << 24u32) | ((k4 as u32) << 16u32) | ((k5 as u32) << 8u32) | (k6 as u32),
    ;
    assert(low_bytes(l) =~= key.subrange(0, 3));
    assert(high_bytes(h) =~= key.subrange(3, 7));
    assert(low_bytes(l) + high_bytes(h) =~= key);
}

/// The meet in the middle: for pairs made by full encryption under `key`,
/// the three-round encryption of the first plaintext under the key's low
/// bytes equals the partial decryption of the first ciphertext under its
/// high bytes. With an index of all low keys in which no larger low key
/// meets the same midpoint, the search accepts the key's high part and
/// recovers exactly `key` there.
pub proof fn lemma_mitm_recovers_key(index: Map<u64, u32>, plains: Seq<u64>, crypts: Seq<u64>, key: Seq<u8>)
    requires
        key.len() == KEYSIZE,
        plains.len() == crypts.len(),
        plains.len() >= 1,
        plains[0] < BLOCK_LIMIT,
        consistent(key, plains, crypts),
        indexes(index, plains[0], LOW_KEYS as nat),
        forall|l: u32|
            low_of_bytes(key) < l < LOW_KEYS ==> #[trigger] partial_encrypt(plains[0], l)
                != partial_encrypt(plains[0], low_of_bytes(key)),
    ensures
        partial_decrypt(crypts[0], high_of_bytes(key)) == partial_encrypt(plains[0], low_of_bytes(key)),
        index[partial_decrypt(crypts[0], high_of_bytes(key))] == low_of_bytes(key),
        candidate_ok(index, plains, crypts, high_of_bytes(key)),
        key_value(low_of_bytes(key), high_of_bytes(key)) < (1u64 << 56u64),
        key_bytes_spec(key_value(low_of_bytes(key), high_of_bytes(key))) == key,
{
    let p = plains[0];
    let l = low_of_bytes(key);
    let h = high_of_bytes(key);
    lemma_key_split(key);
    let lb = low_bytes(l);
    let hb = high_bytes(h);
    assert(encrypt_spec(plains[0], key, 6) == crypts[0]);
    let f = forward(p, key, 6);
    lemma_forward_bound(p, key, 6);
    lemma_add_key_involution(f, key[6]);
    assert(hb.last() == key[6]);
    lemma_backward_forward(p, key, hb, 3);
    assert(partial_decrypt(crypts[0], h) == forward(p, key, 3));
    assert forall|i: int| 0 <= i < 3 implies lb[i] == key[i] by {}
    lemma_forward_prefix(p, lb, key, 3);
    let mid = partial_encrypt(p, l);
    assert(mid == forward(p, key, 3));
    assert(index.contains_key(mid));
    let found = index[mid];
    if found < l {
        assert(partial_encrypt(p, l) != mid);
    }
    if found > l {
        assert(partial_encrypt(p, found) != mid);
    }
    lemma_key_value_parts(l, h);
    let k = key_value(l, h);
    assert(k < (1u64 << 56u64)) by (bit_vector)
        requires
            l < 0x100_0000,
            k == ((l as u64) << 32u64) | (h as u64),
    ;
}

/// Where no 7-byte key fits all the pairs, no high key is a candidate, so
/// the search of any range reports nothing.
pub proof fn lemma_no_key_no_candidate(index: Map<u64, u32>, plains: Seq<u64>, crypts: Seq<u64>)
    requires
        forall|key: Seq<u8>| key.len() == KEYSIZE ==> !#[trigger] consistent(key, plains, crypts),
    ensures
        forall|h: u32| !#[trigger] candidate_ok(index, plains, crypts, h),
{
    assert forall|h: u32| !#[trigger] candidate_ok(index, plains, crypts, h) by {
        let mid = partial_decrypt(crypts[0], h);
        let key = low_bytes(index[mid]) + high_bytes(h);
        assert(key.len() == KEYSIZE);
    }
}

} // verus!
