//! The block cipher: one round is key mixing, 5-bit substitution and a
//! one-byte rotation of a 40-bit block; decryption is its exact inverse.
use vstd::prelude::*;

verus! {

/// Number of key bytes.
pub const KEYSIZE: usize = 7;

/// Width in bits of one substitution group.
pub const SBOXSIZE: u64 = 5;

/// Number of meaningful bytes in a block.
pub const BLOCKSIZE: u64 = 5;

/// Every block value lies below this bound (40 bits).
pub const BLOCK_LIMIT: u64 = 0x100_0000_0000;

/// Forward substitution of a 5-bit group.
pub const SBOX: [u8; 32] = [
    22, 0, 19, 9, 15, 3, 21, 18, 4, 26, 28, 13, 27, 5, 25, 31,
    29, 12, 24, 6, 23, 8, 2, 11, 16, 30, 14, 10, 20, 7, 17, 1,
];

/// Inverse substitution of a 5-bit group.
pub const RSBOX: [u8; 32] = [
    1, 31, 22, 5, 8, 13, 19, 29, 21, 3, 27, 23, 17, 11, 26, 4,
    24, 30, 7, 2, 28, 6, 0, 20, 18, 14, 9, 12, 10, 16, 25, 15,
];

/// The 40-bit pattern `b, !b, b, !b, b` (big-endian) mixed in for key byte `b`.
pub open spec fn key_pattern(b: u8) -> u64 {
    let k = b as u64;
    let n = (b ^ 0xFF) as u64;
    (k << 32u64) | (n << 24u64) | (k << 16u64) | (n << 8u64) | k
}

pub open spec fn add_key_spec(state: u64, b: u8) -> u64 {
    state ^ key_pattern(b)
}

/// Rotation of the 5-byte window right by one byte.
pub open spec fn ror_spec(v: u64) -> u64 {
    (v >> 8u64) | ((v & 0xFF) << 32u64)
}

/// Rotation of the 5-byte window left by one byte: the top byte of the
/// block re-enters at the bottom.
pub open spec fn rol_spec(v: u64) -> u64 {
    ((v << 8u64) & 0xFF_FFFF_FFFF) | ((v & (0xFFu64 << 32u64)) >> 32u64)
}

/// The `j`-th 5-bit group of `s`, counted from the least significant end.
pub open spec fn group(s: u64, j: nat) -> u64 {
    (s >> ((5 * j) as u64)) & 31
}

/// The first `n` groups of `s`, most significant first, each replaced
/// through `table`, packed into the low `5 * n` bits.
pub open spec fn substitute(s: u64, table: Seq<u8>, n: nat) -> u64
    decreases n,
{
    if n == 0 {
        0
    } else {
        (substitute(s, table, (n - 1) as nat) << 5u64) | (table[group(s, (8 - n) as nat) as int] as u64)
    }
}

pub open spec fn sbox_spec(s: u64) -> u64 {
    substitute(s, SBOX@, 8)
}

pub open spec fn rsbox_spec(s: u64) -> u64 {
    substitute(s, RSBOX@, 8)
}

/// One forward round.
pub open spec fn step_spec(s: u64, b: u8) -> u64 {
    ror_spec(sbox_spec(add_key_spec(s, b)))
}

/// One inverse round.
pub open spec fn inv_step_spec(s: u64, b: u8) -> u64 {
    add_key_spec(rsbox_spec(rol_spec(s)), b)
}

/// The state after `n` forward rounds with `key[0]`, ..., `key[n - 1]`.
pub open spec fn forward(m: u64, key: Seq<u8>, n: nat) -> u64
    decreases n,
{
    if n == 0 {
        m
    } else {
        step_spec(forward(m, key, (n - 1) as nat), key[n - 1])
    }
}

/// The state after `n` inverse rounds with `key[len - 2]`, ..., `key[len - 1 - n]`.
pub open spec fn backward(c: u64, key: Seq<u8>, n: nat) -> u64
    decreases n,
{
    if n == 0 {
        c
    } else {
        inv_step_spec(backward(c, key, (n - 1) as nat), key[key.len() - 1 - n])
    }
}

pub open spec fn min(a: nat, b: nat) -> nat {
    if a <= b { a } else { b }
}

/// Encryption: as many rounds as asked and as the key has bytes for; a
/// full encryption (`KEYSIZE - 1` rounds) ends with whitening by `key[6]`.
pub open spec fn encrypt_spec(m: u64, key: Seq<u8>, rounds: nat) -> u64 {
    let s = forward(m, key, min(rounds, key.len()));
    if rounds == KEYSIZE - 1 {
        add_key_spec(s, key[KEYSIZE - 1])
    } else {
        s
    }
}

/// Decryption: undo the whitening by the last key byte, then as many
/// inverse rounds as asked and as the key has bytes before its last.
pub open spec fn decrypt_spec(c: u64, key: Seq<u8>, rounds: nat) -> u64 {
    backward(add_key_spec(c, key.last()), key, min(rounds, (key.len() - 1) as nat))
}

/// Mixes key byte `key` into the block.
pub fn add_key(state: u64, key: u8) -> (r: u64)
    ensures
        r == add_key_spec(state, key),
{
    let k = key as u64;
    let n = (key ^ 0xFF) as u64;
    let pattern = (k << 32u64) | (n << 24u64) | (k << 16u64) | (n << 8u64) | k;
    state ^ pattern
}

/// Rotates the 5-byte window right by one byte.
pub fn ror(v: u64) -> (r: u64)
    ensures
        r == ror_spec(v),
        v < BLOCK_LIMIT ==> r < BLOCK_LIMIT,
{
    proof {
        lemma_rotations_inverse(v);
    }
    let tmp = (v & 0xFF) << (8 * (BLOCKSIZE - 1));
    (v >> 8u64) | tmp
}

/// Rotates the 5-byte window left by one byte.
pub fn rol(v: u64) -> (r: u64)
    ensures
        r == rol_spec(v),
        r < BLOCK_LIMIT,
        v < BLOCK_LIMIT ==> ror_spec(r) == v && rol_spec(ror_spec(v)) == v,
{
    proof {
        lemma_rotations_inverse(v);
    }
    let tmp = (v & (0xFFu64 << (8 * (BLOCKSIZE - 1)))) >> (8 * (BLOCKSIZE - 1));
    ((v << 8u64) & (BLOCK_LIMIT - 1)) | tmp
}

/// The two one-byte rotations keep a block within 40 bits and undo each
/// other on it.
pub proof fn lemma_rotations_inverse(v: u64)
    ensures
        rol_spec(v) < BLOCK_LIMIT,
        v < BLOCK_LIMIT ==> ror_spec(v) < BLOCK_LIMIT,
        v < BLOCK_LIMIT ==> ror_spec(rol_spec(v)) == v,
        v < BLOCK_LIMIT ==> rol_spec(ror_spec(v)) == v,
{
    let l = rol_spec(v);
    let r = ror_spec(v);
    assert(l < 0x100_0000_0000) by (bit_vector)
        requires
            l == ((v << 8u64) & 0xFF_FFFF_FFFF) | ((v & (0xFFu64 << 32u64)) >> 32u64),
    ;
    assert(v < 0x100_0000_0000 ==> r < 0x100_0000_0000) by (bit_vector)
        requires
            r == (v >> 8u64) | ((v & 0xFF) << 32u64),
    ;
    let rl = ror_spec(l);
    let lr = rol_spec(r);
    assert(v < 0x100_0000_0000 ==> rl == v && lr == v) by (bit_vector)
        requires
            l == ((v << 8u64) & 0xFF_FFFF_FFFF) | ((v & (0xFFu64 << 32u64)) >> 32u64),
            r == (v >> 8u64) | ((v & 0xFF) << 32u64),
            rl == (l >> 8u64) | ((l & 0xFF) << 32u64),
            lr == ((r << 8u64) & 0xFF_FFFF_FFFF) | ((r & (0xFFu64 << 32u64)) >> 32u64),
    ;
}

fn substitute_exec(state: u64, table: &[u8; 32]) -> (r: u64)
    ensures
        r == substitute(state, table@, 8),
{
    let loops: u64 = BLOCKSIZE * 8 / SBOXSIZE;
    let mut result: u64 = 0;
    let mut i: u64 = 0;
    while i < loops
        invariant
            loops == 8,
            i <= loops,
            result == substitute(state, table@, i as nat),
        decreases loops - i,
    {
        let shift: u64 = SBOXSIZE * (loops - i - 1);
        let g: u64 = (state >> shift) & 0x1F;
        assert(g < 32) by (bit_vector)
            requires
                g == (state >> shift) & 0x1F,
        ;
        assert(group(state, (8 - (i + 1)) as nat) == g);
        result = (result << SBOXSIZE) | (table[g as usize] as u64);
        i = i + 1;
    }
    result
}

/// Replaces each 5-bit group of the low 40 bits through the forward table.
pub fn sbox(state: u64) -> (r: u64)
    ensures
        r == sbox_spec(state),
{
    substitute_exec(state, &SBOX)
}

/// Replaces each 5-bit group of the low 40 bits through the inverse table.
pub fn rsbox(state: u64) -> (r: u64)
    ensures
        r == rsbox_spec(state),
{
    substitute_exec(state, &RSBOX)
}


/// Encrypts `msg` with `rounds` rounds, using `key[0]`, `key[1]`, ... in
/// order; a full encryption (`KEYSIZE - 1` rounds) ends with whitening by
/// the last key byte.
pub fn encrypt_block(msg: u64, key: &[u8], rounds: usize) -> (r: u64)
    requires
        rounds == KEYSIZE - 1 ==> key@.len() >= KEYSIZE,
    ensures
        r == encrypt_spec(msg, key@, rounds as nat),
{
    let n: usize = if rounds < key.len() { rounds } else { key.len() };
    let mut state = msg;
    let mut i: usize = 0;
    while i < n
        invariant
            n == min(rounds as nat, key@.len()),
            i <= n,
            state == forward(msg, key@, i as nat),
        decreases n - i,
    {
        state = add_key(state, key[i]);
        state = sbox(state);
        state = ror(state);
        i = i + 1;
    }
    if rounds == KEYSIZE - 1 {
        add_key(state, key[KEYSIZE - 1])
    } else {
        state
    }
}

/// Decrypts `msg`: undoes the whitening by the last key byte, then
/// `rounds` inverse rounds walking the key backward from its second-last
/// byte (fewer where the key has fewer bytes before its last).
pub fn decrypt_block(msg: u64, key: &[u8], rounds: usize) -> (r: u64)
    requires
        key@.len() >= 1,
    ensures
        r == decrypt_spec(msg, key@, rounds as nat),
{
    let last: usize = key.len() - 1;
    let n: usize = if rounds < last { rounds } else { last };
    let mut state = add_key(msg, key[last]);
    let mut i: usize = 0;
    while i < n
        invariant
            last == key@.len() - 1,
            n == min(rounds as nat, last as nat),
            i <= n,
            state == backward(add_key_spec(msg, key@.last()), key@, i as nat),
        decreases n - i,
    {
        state = rol(state);
        state = rsbox(state);
        state = add_key(state, key[last - 1 - i]);
        i = i + 1;
    }
    state
}

/// The two substitution tables are permutations of `0..32` and inverse to
/// each other.
pub proof fn lemma_sbox_tables_inverse()
    ensures
        SBOX@.len() == 32,
        RSBOX@.len() == 32,
        forall|x: int|
            0 <= x < 32 ==> (#[trigger] SBOX@[x]) < 32 && RSBOX@[SBOX@[x] as int] == x,
        forall|x: int|
            0 <= x < 32 ==> (#[trigger] RSBOX@[x]) < 32 && SBOX@[RSBOX@[x] as int] == x,
{
}

proof fn lemma_group_bound(s: u64, j: nat)
    ensures
        group(s, j) < 32,
{
    let k = (5 * j) as u64;
    assert((s >> k) & 31 < 32) by (bit_vector);
}

proof fn lemma_pack(r: u64, a0: u64, a1: u64, a2: u64, a3: u64, a4: u64, a5: u64, a6: u64, a7: u64)
    requires
        a0 < 32, a1 < 32, a2 < 32, a3 < 32, a4 < 32, a5 < 32, a6 < 32, a7 < 32,
        r == ((((((((((((((((0u64 << 5u64) | a0) << 5u64) | a1) << 5u64) | a2) << 5u64) | a3)
            << 5u64) | a4) << 5u64) | a5) << 5u64) | a6) << 5u64) | a7),
    ensures
        r < 0x100_0000_0000,
        (r >> 35u64) & 31 == a0,
        (r >> 30u64) & 31 == a1,
        (r >> 25u64) & 31 == a2,
        (r >> 20u64) & 31 == a3,
        (r >> 15u64) & 31 == a4,
        (r >> 10u64) & 31 == a5,
        (r >> 5u64) & 31 == a6,
        (r >> 0u64) & 31 == a7,
{
    assert(r < 0x100_0000_0000 && (r >> 35u64) & 31 == a0 && (r >> 30u64) & 31 == a1
        && (r >> 25u64) & 31 == a2 && (r >> 20u64) & 31 == a3 && (r >> 15u64) & 31 == a4
        && (r >> 10u64) & 31 == a5 && (r >> 5u64) & 31 == a6 && (r >> 0u64) & 31 == a7)
        by (bit_vector)
        requires
            a0 < 32, a1 < 32, a2 < 32, a3 < 32, a4 < 32, a5 < 32, a6 < 32, a7 < 32,
            r == ((((((((((((((((0u64 << 5u64) | a0) << 5u64) | a1) << 5u64) | a2) << 5u64) | a3)
                << 5u64) | a4) << 5u64) | a5) << 5u64) | a6) << 5u64) | a7),
    ;
}

proof fn lemma_groups_determine(x: u64, y: u64)
    requires
        x < BLOCK_LIMIT,
        y < BLOCK_LIMIT,
        forall|j: nat| j < 8 ==> #[trigger] group(x, j) == group(y, j),
    ensures
        x == y,
{
    assert(group(x, 0) == group(y, 0) && group(x, 1) == group(y, 1) && group(x, 2) == group(y, 2)
        && group(x, 3) == group(y, 3) && group(x, 4) == group(y, 4) && group(x, 5) == group(y, 5)
        && group(x, 6) == group(y, 6) && group(x, 7) == group(y, 7));
    assert(x == y) by (bit_vector)
        requires
            x < 0x100_0000_0000,
            y < 0x100_0000_0000,
            (x >> 0u64) & 31 == (y >> 0u64) & 31,
            (x >> 5u64) & 31 == (y >> 5u64) & 31,
            (x >> 10u64) & 31 == (y >> 10u64) & 31,
            (x >> 15u64) & 31 == (y >> 15u64) & 31,
            (x >> 20u64) & 31 == (y >> 20u64) & 31,
            (x >> 25u64) & 31 == (y >> 25u64) & 31,
            (x >> 30u64) & 31 == (y >> 30u64) & 31,
            (x >> 35u64) & 31 == (y >> 35u64) & 31,
    ;
}

/// Substituting through a table of 5-bit values gives a block whose groups
/// are the table's images of the input's groups.
proof fn lemma_substitute_groups(s: u64, table: Seq<u8>)
    requires
        table.len() == 32,
        forall|x: int| 0 <= x < 32 ==> #[trigger] table[x] < 32,
    ensures
        substitute(s, table, 8) < BLOCK_LIMIT,
        forall|j: nat| j < 8 ==> #[trigger] group(substitute(s, table, 8), j) == table[group(s, j) as int],
{
    reveal_with_fuel(substitute, 9);
    let r = substitute(s, table, 8);
    lemma_group_bound(s, 0);
    lemma_group_bound(s, 1);
    lemma_group_bound(s, 2);
    lemma_group_bound(s, 3);
    lemma_group_bound(s, 4);
    lemma_group_bound(s, 5);
    lemma_group_bound(s, 6);
    lemma_group_bound(s, 7);
    lemma_pack(
        r,
        table[group(s, 7) as int] as u64,
        table[group(s, 6) as int] as u64,
        table[group(s, 5) as int] as u64,
        table[group(s, 4) as int] as u64,
        table[group(s, 3) as int] as u64,
        table[group(s, 2) as int] as u64,
        table[group(s, 1) as int] as u64,
        table[group(s, 0) as int] as u64,
    );
    assert forall|j: nat| j < 8 implies #[trigger] group(r, j) == table[group(s, j) as int] by {
        if j == 0 {
        } else if j == 1 {
        } else if j == 2 {
        } else if j == 3 {
        } else if j == 4 {
        } else if j == 5 {
        } else if j == 6 {
        } else {
        }
    }
}

/// Inverse substitution undoes forward substitution on every block.
pub proof fn lemma_sbox_round_trip(a: u64)
    requires
        a < BLOCK_LIMIT,
    ensures
        sbox_spec(a) < BLOCK_LIMIT,
        rsbox_spec(sbox_spec(a)) == a,
{
    lemma_sbox_tables_inverse();
    let t = sbox_spec(a);
    lemma_substitute_groups(a, SBOX@);
    lemma_substitute_groups(t, RSBOX@);
    assert forall|j: nat| j < 8 implies #[trigger] group(rsbox_spec(t), j) == group(a, j) by {
        lemma_group_bound(a, j);
    }
    lemma_groups_determine(rsbox_spec(t), a);
}

/// Key mixing is its own inverse and keeps a block within 40 bits.
pub proof fn lemma_add_key_involution(s: u64, b: u8)
    ensures
        add_key_spec(add_key_spec(s, b), b) == s,
        s < BLOCK_LIMIT ==> add_key_spec(s, b) < BLOCK_LIMIT,
{
    let p = key_pattern(b);
    let k = b as u64;
    let n = (b ^ 0xFF) as u64;
    assert(k < 256 && n < 256) by (bit_vector)
        requires
            k == b as u64,
            n == (b ^ 0xFF) as u64,
    ;
    assert(p < 0x100_0000_0000) by (bit_vector)
        requires
            k < 256,
            n < 256,
            p == (k << 32u64) | (n << 24u64) | (k << 16u64) | (n << 8u64) | k,
    ;
    assert((s ^ p) ^ p == s) by (bit_vector);
    assert(s < 0x100_0000_0000 ==> (s ^ p) < 0x100_0000_0000) by (bit_vector)
        requires
            p < 0x100_0000_0000,
    ;
}

/// An inverse round undoes a forward round with the same key byte.
pub proof fn lemma_step_inverse(s: u64, b: u8)
    requires
        s < BLOCK_LIMIT,
    ensures
        step_spec(s, b) < BLOCK_LIMIT,
        inv_step_spec(step_spec(s, b), b) == s,
{
    lemma_add_key_involution(s, b);
    let a = add_key_spec(s, b);
    lemma_sbox_round_trip(a);
    lemma_rotations_inverse(sbox_spec(a));
}

/// Forward rounds keep a block within 40 bits.
pub proof fn lemma_forward_bound(m: u64, key: Seq<u8>, n: nat)
    requires
        m < BLOCK_LIMIT,
        n <= key.len(),
    ensures
        forward(m, key, n) < BLOCK_LIMIT,
    decreases n,
{
    if n > 0 {
        lemma_forward_bound(m, key, (n - 1) as nat);
        lemma_step_inverse(forward(m, key, (n - 1) as nat), key[n - 1]);
    }
}

/// Forward rounds read only as many key bytes as there are rounds.
pub proof fn lemma_forward_prefix(m: u64, key: Seq<u8>, other: Seq<u8>, n: nat)
    requires
        n <= key.len(),
        n <= other.len(),
        forall|i: int| 0 <= i < n ==> key[i] == other[i],
    ensures
        forward(m, key, n) == forward(m, other, n),
    decreases n,
{
    if n > 0 {
        lemma_forward_prefix(m, key, other, (n - 1) as nat);
    }
}

/// Inverse rounds with the last bytes of a 7-byte key walk the six forward
/// rounds back: `j` of them lead to the state after `6 - j` forward rounds.
pub proof fn lemma_backward_forward(m: u64, key: Seq<u8>, tail: Seq<u8>, j: nat)
    requires
        m < BLOCK_LIMIT,
        key.len() == KEYSIZE,
        1 <= tail.len() <= KEYSIZE,
        tail == key.subrange(KEYSIZE - tail.len(), KEYSIZE as int),
        j < tail.len(),
    ensures
        backward(forward(m, key, 6), tail, j) == forward(m, key, (6 - j) as nat),
    decreases j,
{
    if j > 0 {
        lemma_backward_forward(m, key, tail, (j - 1) as nat);
        assert(tail[tail.len() - 1 - j] == key[6 - j]);
        lemma_forward_bound(m, key, (6 - j) as nat);
        lemma_step_inverse(forward(m, key, (6 - j) as nat), key[6 - j]);
    }
}

/// Full decryption undoes full encryption under every 7-byte key.
pub proof fn lemma_round_trip(m: u64, key: Seq<u8>)
    requires
        m < BLOCK_LIMIT,
        key.len() == KEYSIZE,
    ensures
        encrypt_spec(m, key, 6) < BLOCK_LIMIT,
        decrypt_spec(encrypt_spec(m, key, 6), key, 6) == m,
{
    let f = forward(m, key, 6);
    lemma_forward_bound(m, key, 6);
    lemma_add_key_involution(f, key[6]);
    assert(key == key.subrange(0, KEYSIZE as int));
    lemma_backward_forward(m, key, key, 6);
}

/// A full encryption is the partial encryption of five rounds, one more
/// round with `key[5]`, then whitening with `key[6]`; partial encryptions
/// never read `key[6]`.
pub proof fn lemma_whitening(m: u64, key: Seq<u8>, other: Seq<u8>, rounds: nat)
    requires
        key.len() == KEYSIZE,
        other.len() == KEYSIZE,
        forall|i: int| 0 <= i < 6 ==> key[i] == other[i],
        rounds < 6,
    ensures
        encrypt_spec(m, key, 6) == add_key_spec(step_spec(encrypt_spec(m, key, 5), key[5]), key[6]),
        encrypt_spec(m, key, rounds) == encrypt_spec(m, other, rounds),
{
    lemma_forward_prefix(m, key, other, rounds);
}

} // verus!
