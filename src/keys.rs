//! The key schedule: master key, per-block keys and the round keys of each block.
use vstd::prelude::*;

use crate::config::KeySize;
use crate::hash::{blake3_xof, hash_xof};

verus! {

/// Byte-wise xor of two sequences of the same length.
pub open spec fn xor_seq(a: Seq<u8>, b: Seq<u8>) -> Seq<u8> {
    Seq::new(a.len(), |i: int| (a[i] ^ b[i]) as u8)
}

/// Byte `j` of `offset` serialised in little-endian order and padded with zeros.
pub open spec fn offset_byte(offset: usize, j: int) -> u8 {
    if 0 <= j < 8 {
        ((offset as u64) >> ((8 * j) as u64)) as u8
    } else {
        0
    }
}

/// `offset` in little-endian order, right-padded with zeros to `len` bytes.
pub open spec fn offset_pad(offset: usize, len: nat) -> Seq<u8> {
    Seq::new(len, |j: int| offset_byte(offset, j))
}

/// The master key: `block_size` bytes of the hash's output on the passphrase.
pub open spec fn master_key_of(key: Seq<u8>, key_size: KeySize) -> Seq<u8> {
    blake3_xof(key, key_size.spec_block_size())
}

/// Round key `r` of the chain seeded by `seed` at `offset`: the first is `seed` xor the
/// padded offset, each later one the hash of the one before.
pub open spec fn round_key(seed: Seq<u8>, block_size: nat, offset: usize, r: nat) -> Seq<u8>
    decreases r,
{
    if r == 0 {
        xor_seq(seed, offset_pad(offset, block_size))
    } else {
        blake3_xof(round_key(seed, block_size, offset, (r - 1) as nat), block_size)
    }
}

/// The first `count` round keys of the chain seeded by `seed` at `offset`.
pub open spec fn round_keys(seed: Seq<u8>, block_size: nat, offset: usize, count: nat) -> Seq<
    Seq<u8>,
> {
    Seq::new(count, |r: int| round_key(seed, block_size, offset, r as nat))
}

/// The key of block `index`: the master key xor the block's padded index. It is also the
/// first round key of that block.
pub open spec fn block_key_of(key: Seq<u8>, key_size: KeySize, index: usize) -> Seq<u8> {
    round_key(master_key_of(key, key_size), key_size.spec_block_size(), index, 0)
}

/// XORs two byte arrays of the same length together.
pub fn xor(a: &[u8], b: &[u8]) -> (r: Vec<u8>)
    requires
        a@.len() == b@.len(),
    ensures
        r@ == xor_seq(a@, b@),
{
    let mut out: Vec<u8> = Vec::new();
    let mut i: usize = 0;
    while i < a.len()
        invariant
            i <= a@.len(),
            a@.len() == b@.len(),
            out@ =~= xor_seq(a@, b@).subrange(0, i as int),
        decreases a@.len() - i,
    {
        out.push(a[i] ^ b[i]);
        i = i + 1;
    }
    out
}

/// `offset` as little-endian bytes, right-padded with zeros to `len` bytes.
pub fn offset_bytes(offset: usize, len: usize) -> (r: Vec<u8>)
    ensures
        r@ == offset_pad(offset, len as nat),
{
    let mut out: Vec<u8> = Vec::new();
    let mut j: usize = 0;
    while j < len
        invariant
            j <= len,
            out@ =~= offset_pad(offset, len as nat).subrange(0, j as int),
        decreases len - j,
    {
        let b: u8 = if j < 8 {
            ((offset as u64) >> ((8 * j) as u64)) as u8
        } else {
            0
        };
        out.push(b);
        j = j + 1;
    }
    out
}

/// Gets the master key by hashing the passphrase to `block_size` bytes.
pub fn get_master_key(key: &[u8], key_size: KeySize) -> (r: Vec<u8>)
    ensures
        r@ == master_key_of(key@, key_size),
        r@.len() == key_size.spec_block_size(),
{
    hash_xof(key, key_size.block_size())
}

/// Derives `count` round keys from `seed`: the first is `seed` xor the padded `offset`,
/// each later one the hash of the one before, read to `block_size` bytes.
pub fn derive_subkeys(seed: &[u8], block_size: usize, count: usize, offset: usize) -> (r: Vec<
    Vec<u8>,
>)
    requires
        seed@.len() == block_size,
    ensures
        r@.len() == count,
        forall|i: int|
            0 <= i < count ==> (#[trigger] r@[i])@ == round_key(
                seed@,
                block_size as nat,
                offset,
                i as nat,
            ),
        forall|i: int| 0 <= i < count ==> (#[trigger] r@[i])@.len() == block_size,
{
    let mut subkeys: Vec<Vec<u8>> = Vec::new();
    if count == 0 {
        return subkeys;
    }
    let pad = offset_bytes(offset, block_size);
    let initial_key = xor(seed, &pad);
    subkeys.push(initial_key);
    let mut i: usize = 1;
    while i < count
        invariant
            1 <= i <= count,
            subkeys@.len() == i,
            forall|k: int|
                0 <= k < i ==> (#[trigger] subkeys@[k])@ == round_key(
                    seed@,
                    block_size as nat,
                    offset,
                    k as nat,
                ),
            forall|k: int| 0 <= k < i ==> (#[trigger] subkeys@[k])@.len() == block_size,
        decreases count - i,
    {
        let subkey = hash_xof(&subkeys[i - 1], block_size);
        subkeys.push(subkey);
        i = i + 1;
    }
    subkeys
}

/// The key schedule depends on its inputs alone: equal passphrases and levels give equal
/// master keys, and with equal block indices equal round keys, round by round.
pub proof fn lemma_key_schedule_deterministic(
    key1: Seq<u8>,
    key2: Seq<u8>,
    key_size: KeySize,
    index: usize,
    r: nat,
)
    requires
        key1 == key2,
    ensures
        master_key_of(key1, key_size) == master_key_of(key2, key_size),
        block_key_of(key1, key_size, index) == block_key_of(key2, key_size, index),
        round_key(master_key_of(key1, key_size), key_size.spec_block_size(), index, r)
            == round_key(master_key_of(key2, key_size), key_size.spec_block_size(), index, r),
{
}

} // verus!
