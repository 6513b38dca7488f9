//! The block transform, the framing into padded blocks, and encryption and decryption.
use vstd::prelude::*;

use crate::config::KeySize;
use crate::keys::{derive_subkeys, get_master_key, master_key_of, round_keys, xor, xor_seq};
use crate::sbox::{inv_sub_byte, sub_byte, SubstitutionTables};

verus! {

/// Number of blocks of `block_size` bytes that hold `len` bytes.
pub open spec fn block_count(len: nat, block_size: nat) -> nat {
    ((len + block_size - 1) as nat / block_size) as nat
}

/// Block `i` of `input`, right-padded with zeros to `block_size` bytes.
pub open spec fn padded_block(input: Seq<u8>, block_size: nat, i: nat) -> Seq<u8> {
    Seq::new(
        block_size,
        |j: int|
            if i * block_size + j < input.len() {
                input[i * block_size + j]
            } else {
                0u8
            },
    )
}

/// Every byte through the forward substitution.
pub open spec fn sub_seq(b: Seq<u8>) -> Seq<u8> {
    Seq::new(b.len(), |j: int| sub_byte(b[j]))
}

/// Every byte through the inverse substitution.
pub open spec fn inv_sub_seq(b: Seq<u8>) -> Seq<u8> {
    Seq::new(b.len(), |j: int| inv_sub_byte(b[j]))
}

/// Circular rotation of the bytes to the left by `k` positions.
pub open spec fn rotl_seq(b: Seq<u8>, k: nat) -> Seq<u8> {
    Seq::new(b.len(), |j: int| b[(j + k) % (b.len() as int)])
}

/// Circular rotation of the bytes to the right by `k` positions, `k < b.len()`.
pub open spec fn rotr_seq(b: Seq<u8>, k: nat) -> Seq<u8> {
    Seq::new(b.len(), |j: int| b[(j + b.len() - k) % (b.len() as int)])
}

/// Rotation amount of round `r` of block `index`.
pub open spec fn rotation(index: nat, r: nat, block_size: nat) -> nat {
    ((index + r) as int % (block_size as int)) as nat
}

/// One encryption round: substitute, xor with the round key, rotate left.
pub open spec fn enc_round(b: Seq<u8>, key: Seq<u8>, amount: nat) -> Seq<u8> {
    rotl_seq(xor_seq(sub_seq(b), key), amount)
}

/// One decryption round: rotate right, xor with the round key, inverse substitution.
pub open spec fn dec_round(b: Seq<u8>, key: Seq<u8>, amount: nat) -> Seq<u8> {
    inv_sub_seq(xor_seq(rotr_seq(b, amount), key))
}

/// The first `r` encryption rounds of block `index`, in ascending order.
pub open spec fn enc_rounds(b: Seq<u8>, keys: Seq<Seq<u8>>, index: nat, block_size: nat, r: nat) -> Seq<
    u8,
>
    decreases r,
{
    if r == 0 {
        b
    } else {
        enc_round(
            enc_rounds(b, keys, index, block_size, (r - 1) as nat),
            keys[r - 1],
            rotation(index, (r - 1) as nat, block_size),
        )
    }
}

/// Undoes rounds `r - 1` down to 0 of block `index`.
pub open spec fn dec_rounds(b: Seq<u8>, keys: Seq<Seq<u8>>, index: nat, block_size: nat, r: nat) -> Seq<
    u8,
>
    decreases r,
{
    if r == 0 {
        b
    } else {
        dec_rounds(
            dec_round(b, keys[r - 1], rotation(index, (r - 1) as nat, block_size)),
            keys,
            index,
            block_size,
            (r - 1) as nat,
        )
    }
}

/// The round keys of block `index` under passphrase `key`.
pub open spec fn block_round_keys(key: Seq<u8>, key_size: KeySize, index: nat) -> Seq<Seq<u8>> {
    round_keys(
        master_key_of(key, key_size),
        key_size.spec_block_size(),
        index as usize,
        key_size.spec_rounds(),
    )
}

/// Block `i` of the ciphertext of `input`.
pub open spec fn encrypted_block(key: Seq<u8>, input: Seq<u8>, key_size: KeySize, i: nat) -> Seq<u8> {
    let bs = key_size.spec_block_size();
    enc_rounds(
        padded_block(input, bs, i),
        block_round_keys(key, key_size, i),
        i,
        bs,
        key_size.spec_rounds(),
    )
}

/// Block `i` of `input` decrypted, before the padding is removed.
pub open spec fn decrypted_block(key: Seq<u8>, input: Seq<u8>, key_size: KeySize, i: nat) -> Seq<u8> {
    let bs = key_size.spec_block_size();
    dec_rounds(
        padded_block(input, bs, i),
        block_round_keys(key, key_size, i),
        i,
        bs,
        key_size.spec_rounds(),
    )
}

/// The ciphertext: the encrypted padded blocks, concatenated in order.
pub open spec fn encryption(key: Seq<u8>, input: Seq<u8>, key_size: KeySize) -> Seq<u8> {
    let bs = key_size.spec_block_size();
    Seq::new(
        block_count(input.len(), bs) * bs,
        |j: int| encrypted_block(key, input, key_size, (j / bs as int) as nat)[j % bs as int],
    )
}

/// The decrypted blocks concatenated in order, trailing zeros still in place.
pub open spec fn decrypted_blocks(key: Seq<u8>, input: Seq<u8>, key_size: KeySize) -> Seq<u8> {
    let bs = key_size.spec_block_size();
    Seq::new(
        block_count(input.len(), bs) * bs,
        |j: int| decrypted_block(key, input, key_size, (j / bs as int) as nat)[j % bs as int],
    )
}

/// `s` without its run of trailing zero bytes.
pub open spec fn strip_trailing_zeros(s: Seq<u8>) -> Seq<u8>
    decreases s.len(),
{
    if s.len() > 0 && s.last() == 0 {
        strip_trailing_zeros(s.drop_last())
    } else {
        s
    }
}

/// The plaintext recovered from `input`: the decrypted blocks without trailing zeros.
pub open spec fn decryption(key: Seq<u8>, input: Seq<u8>, key_size: KeySize) -> Seq<u8> {
    strip_trailing_zeros(decrypted_blocks(key, input, key_size))
}

/// The byte sequences that a list of vectors holds.
pub open spec fn views(v: Seq<Vec<u8>>) -> Seq<Seq<u8>> {
    Seq::new(v.len(), |i: int| v[i]@)
}

proof fn lemma_mod_wrap(x: int, n: int)
    requires
        0 <= x < 2 * n,
        0 < n,
    ensures
        x % n == if x < n {
            x
        } else {
            x - n
        },
{
    if x < n {
        vstd::arithmetic::div_mod::lemma_fundamental_div_mod_converse(x, n, 0, x);
    } else {
        vstd::arithmetic::div_mod::lemma_fundamental_div_mod_converse(x, n, 1, x - n);
    }
}

/// Rotates `b` left by `k` positions.
pub fn rotate_left(b: &[u8], k: usize) -> (r: Vec<u8>)
    requires
        k < b@.len(),
    ensures
        r@ == rotl_seq(b@, k as nat),
{
    let n = b.len();
    let mut out: Vec<u8> = Vec::new();
    let mut j: usize = 0;
    while j < n
        invariant
            n == b@.len(),
            k < n,
            j <= n,
            out@ =~= rotl_seq(b@, k as nat).subrange(0, j as int),
        decreases n - j,
    {
        let idx = if j < n - k {
            j + k
        } else {
            j - (n - k)
        };
        proof {
            lemma_mod_wrap(j + k, n as int);
        }
        out.push(b[idx]);
        j = j + 1;
    }
    out
}

/// Rotates `b` right by `k` positions.
pub fn rotate_right(b: &[u8], k: usize) -> (r: Vec<u8>)
    requires
        k < b@.len(),
    ensures
        r@ == rotr_seq(b@, k as nat),
{
    let n = b.len();
    let mut out: Vec<u8> = Vec::new();
    let mut j: usize = 0;
    while j < n
        invariant
            n == b@.len(),
            k < n,
            j <= n,
            out@ =~= rotr_seq(b@, k as nat).subrange(0, j as int),
        decreases n - j,
    {
        let idx = if j >= k {
            j - k
        } else {
            j + (n - k)
        };
        proof {
            lemma_mod_wrap(j + n - k, n as int);
        }
        out.push(b[idx]);
        j = j + 1;
    }
    out
}

/// Passes every byte through the forward substitution.
fn substitute_all(tables: &SubstitutionTables, b: &[u8]) -> (r: Vec<u8>)
    ensures
        r@ == sub_seq(b@),
{
    let mut out: Vec<u8> = Vec::new();
    let mut j: usize = 0;
    while j < b.len()
        invariant
            j <= b@.len(),
            out@ =~= sub_seq(b@).subrange(0, j as int),
        decreases b@.len() - j,
    {
        out.push(tables.substitute(b[j]));
        j = j + 1;
    }
    out
}

/// Passes every byte through the inverse substitution.
fn invert_all(tables: &SubstitutionTables, b: &[u8]) -> (r: Vec<u8>)
    ensures
        r@ == inv_sub_seq(b@),
{
    let mut out: Vec<u8> = Vec::new();
    let mut j: usize = 0;
    while j < b.len()
        invariant
            j <= b@.len(),
            out@ =~= inv_sub_seq(b@).subrange(0, j as int),
        decreases b@.len() - j,
    {
        out.push(tables.invert(b[j]));
        j = j + 1;
    }
    out
}

/// `(index + r) % block_size`, computed without overflow.
fn rotation_amount(index: usize, r: usize, block_size: usize) -> (a: usize)
    requires
        block_size > 0,
    ensures
        a == rotation(index as nat, r as nat, block_size as nat),
        a < block_size,
{
    let x = index % block_size;
    let y = r % block_size;
    proof {
        vstd::arithmetic::div_mod::lemma_add_mod_noop(index as int, r as int, block_size as int);
        lemma_mod_wrap(x + y, block_size as int);
    }
    if x < block_size - y {
        x + y
    } else {
        x - (block_size - y)
    }
}

/// Applies the encryption rounds to one block, round keys in ascending order.
pub fn encrypt_block(
    tables: &SubstitutionTables,
    block: &[u8],
    round_keys: &Vec<Vec<u8>>,
    block_idx: usize,
) -> (r: Vec<u8>)
    requires
        block@.len() > 0,
        forall|i: int| 0 <= i < round_keys@.len() ==> (#[trigger] round_keys@[i])@.len() == block@.len(),
    ensures
        r@ == enc_rounds(block@, views(round_keys@), block_idx as nat, block@.len(), round_keys@.len()),
        r@.len() == block@.len(),
{
    let bs = block.len();
    let mut cur: Vec<u8> = vstd::slice::slice_to_vec(block);
    let mut r: usize = 0;
    while r < round_keys.len()
        invariant
            bs == block@.len(),
            bs > 0,
            r <= round_keys@.len(),
            forall|i: int| 0 <= i < round_keys@.len() ==> (#[trigger] round_keys@[i])@.len() == bs,
            cur@ == enc_rounds(block@, views(round_keys@), block_idx as nat, bs as nat, r as nat),
            cur@.len() == bs,
        decreases round_keys@.len() - r,
    {
        let substituted = substitute_all(tables, &cur);
        let keyed = xor(&substituted, &round_keys[r]);
        let amount = rotation_amount(block_idx, r, bs);
        cur = rotate_left(&keyed, amount);
        r = r + 1;
    }
    cur
}

/// Undoes the encryption rounds of one block, round keys in descending order.
pub fn decrypt_block(
    tables: &SubstitutionTables,
    block: &[u8],
    round_keys: &Vec<Vec<u8>>,
    block_idx: usize,
) -> (r: Vec<u8>)
    requires
        block@.len() > 0,
        forall|i: int| 0 <= i < round_keys@.len() ==> (#[trigger] round_keys@[i])@.len() == block@.len(),
    ensures
        r@ == dec_rounds(block@, views(round_keys@), block_idx as nat, block@.len(), round_keys@.len()),
        r@.len() == block@.len(),
{
    let bs = block.len();
    let mut cur: Vec<u8> = vstd::slice::slice_to_vec(block);
    let mut r: usize = round_keys.len();
    while r > 0
        invariant
            bs == block@.len(),
            bs > 0,
            r <= round_keys@.len(),
            forall|i: int| 0 <= i < round_keys@.len() ==> (#[trigger] round_keys@[i])@.len() == bs,
            dec_rounds(block@, views(round_keys@), block_idx as nat, bs as nat, round_keys@.len())
                == dec_rounds(cur@, views(round_keys@), block_idx as nat, bs as nat, r as nat),
            cur@.len() == bs,
        decreases r,
    {
        let amount = rotation_amount(block_idx, r - 1, bs);
        let rotated = rotate_right(&cur, amount);
        let keyed = xor(&rotated, &round_keys[r - 1]);
        cur = invert_all(tables, &keyed);
        r = r - 1;
    }
    cur
}

proof fn lemma_block_count(len: nat, bs: nat, i: nat, start: nat)
    requires
        bs > 0,
        start == i * bs,
        len <= start < len + bs,
    ensures
        block_count(len, bs) == i,
{
    vstd::arithmetic::div_mod::lemma_fundamental_div_mod_converse(
        (len + bs - 1) as int,
        bs as int,
        i as int,
        (len + bs - 1 - start) as int,
    );
}

/// Splits `input` into blocks of the level's size, the last one right-padded with zeros,
/// and derives the master key. Returns the block size, the number of rounds, the blocks
/// and the master key.
pub fn prepare_input(key: &[u8], input: &[u8], key_size: KeySize) -> (r: (
    usize,
    usize,
    Vec<Vec<u8>>,
    Vec<u8>,
))
    requires
        input@.len() + key_size.spec_block_size() <= usize::MAX,
    ensures
        r.0 == key_size.spec_block_size(),
        r.1 == key_size.spec_rounds(),
        r.2@.len() == block_count(input@.len(), key_size.spec_block_size()),
        forall|i: int|
            0 <= i < r.2@.len() ==> (#[trigger] r.2@[i])@ == padded_block(
                input@,
                key_size.spec_block_size(),
                i as nat,
            ),
        r.3@ == master_key_of(key@, key_size),
        r.3@.len() == key_size.spec_block_size(),
{
    let block_size = key_size.block_size();
    let rounds = key_size.rounds();
    let len = input.len();
    let mut blocks: Vec<Vec<u8>> = Vec::new();
    let mut start: usize = 0;
    while start < len
        invariant
            len == input@.len(),
            block_size == key_size.spec_block_size(),
            block_size > 0,
            len + block_size <= usize::MAX,
            start == blocks@.len() * block_size,
            start < len + block_size,
            forall|i: int|
                0 <= i < blocks@.len() ==> (#[trigger] blocks@[i])@ == padded_block(
                    input@,
                    block_size as nat,
                    i as nat,
                ),
        decreases len + block_size - start,
    {
        let mut chunk: Vec<u8> = Vec::new();
        let mut k: usize = 0;
        while k < block_size
            invariant
                len == input@.len(),
                start < len,
                len + block_size <= usize::MAX,
                k <= block_size,
                start == blocks@.len() * block_size,
                chunk@ =~= padded_block(input@, block_size as nat, blocks@.len() as nat).subrange(
                    0,
                    k as int,
                ),
            decreases block_size - k,
        {
            let byte = if start + k < len {
                input[start + k]
            } else {
                0u8
            };
            chunk.push(byte);
            k = k + 1;
        }
        proof {
            let n = blocks@.len() as int;
            assert((n + 1) * block_size == n * block_size + block_size) by (nonlinear_arith);
        }
        blocks.push(chunk);
        start = start + block_size;
    }
    proof {
        lemma_block_count(len as nat, block_size as nat, blocks@.len() as nat, start as nat);
    }
    let master_key = get_master_key(key, key_size);
    (block_size, rounds, blocks, master_key)
}

/// Concatenates blocks of `block_size` bytes in order.
pub fn concat_blocks(blocks: &Vec<Vec<u8>>, block_size: usize) -> (r: Vec<u8>)
    requires
        block_size > 0,
        forall|i: int| 0 <= i < blocks@.len() ==> (#[trigger] blocks@[i])@.len() == block_size,
    ensures
        r@.len() == blocks@.len() * block_size,
        forall|j: int|
            0 <= j < r@.len() ==> #[trigger] r@[j] == blocks@[j / block_size as int]@[j
                % block_size as int],
{
    let mut out: Vec<u8> = Vec::new();
    let mut i: usize = 0;
    while i < blocks.len()
        invariant
            block_size > 0,
            i <= blocks@.len(),
            forall|b: int| 0 <= b < blocks@.len() ==> (#[trigger] blocks@[b])@.len() == block_size,
            out@.len() == i * block_size,
            forall|j: int|
                0 <= j < out@.len() ==> #[trigger] out@[j] == blocks@[j / block_size as int]@[j
                    % block_size as int],
        decreases blocks@.len() - i,
    {
        let block = &blocks[i];
        let mut k: usize = 0;
        while k < block_size
            invariant
                block_size > 0,
                i < blocks@.len(),
                block@ == blocks@[i as int]@,
                block@.len() == block_size,
                k <= block_size,
                out@.len() == i * block_size + k,
                forall|j: int|
                    0 <= j < out@.len() ==> #[trigger] out@[j] == blocks@[j / block_size as int]@[j
                        % block_size as int],
            decreases block_size - k,
        {
            proof {
                vstd::arithmetic::div_mod::lemma_fundamental_div_mod_converse(
                    i * block_size + k,
                    block_size as int,
                    i as int,
                    k as int,
                );
            }
            out.push(block[k]);
            k = k + 1;
        }
        proof {
            assert((i + 1) * block_size == i * block_size + block_size) by (nonlinear_arith);
        }
        i = i + 1;
    }
    out
}

proof fn lemma_length_is_whole_blocks(n: nat, bs: nat)
    requires
        bs > 0,
    ensures
        (n * bs) % bs == 0,
        block_count(0, bs) == 0,
{
    vstd::arithmetic::div_mod::lemma_fundamental_div_mod_converse((n * bs) as int, bs as int, n as int, 0);
    vstd::arithmetic::div_mod::lemma_fundamental_div_mod_converse((bs - 1) as int, bs as int, 0, (bs - 1) as int);
}

/// Encrypts `input` under passphrase `key` at level `key_size`: the padded blocks, each
/// transformed by its rounds, concatenated. The output is a whole number of blocks, and
/// empty for an empty input.
pub fn encrypt(tables: &SubstitutionTables, key: &[u8], input: &[u8], key_size: KeySize) -> (r: Vec<u8>)
    requires
        input@.len() + key_size.spec_block_size() <= usize::MAX,
    ensures
        r@ == encryption(key@, input@, key_size),
        r@.len() == block_count(input@.len(), key_size.spec_block_size()) * key_size.spec_block_size(),
        r@.len() % key_size.spec_block_size() == 0,
        input@.len() == 0 ==> r@.len() == 0,
{
    let (block_size, rounds, mut blocks, master_key) = prepare_input(key, input, key_size);
    let n = blocks.len();
    let mut block_idx: usize = 0;
    while block_idx < n
        invariant
            n == blocks@.len(),
            block_idx <= n,
            block_size == key_size.spec_block_size(),
            rounds == key_size.spec_rounds(),
            master_key@ == master_key_of(key@, key_size),
            master_key@.len() == block_size,
            forall|i: int|
                0 <= i < block_idx ==> (#[trigger] blocks@[i])@ == encrypted_block(
                    key@,
                    input@,
                    key_size,
                    i as nat,
                ),
            forall|i: int|
                block_idx <= i < n ==> (#[trigger] blocks@[i])@ == padded_block(
                    input@,
                    block_size as nat,
                    i as nat,
                ),
            forall|i: int| 0 <= i < n ==> (#[trigger] blocks@[i])@.len() == block_size,
        decreases n - block_idx,
    {
        let round_keys = derive_subkeys(&master_key, block_size, rounds, block_idx);
        let new_block = encrypt_block(tables, &blocks[block_idx], &round_keys, block_idx);
        proof {
            assert(views(round_keys@) =~= block_round_keys(key@, key_size, block_idx as nat));
        }
        blocks.set(block_idx, new_block);
        block_idx = block_idx + 1;
    }
    let out = concat_blocks(&blocks, block_size);
    proof {
        assert(out@ =~= encryption(key@, input@, key_size));
        lemma_length_is_whole_blocks(n as nat, block_size as nat);
    }
    out
}

/// Decrypts `input` under passphrase `key` at level `key_size`: each block undone by its
/// rounds in reverse order, concatenated, then stripped of every trailing zero byte.
pub fn decrypt(tables: &SubstitutionTables, key: &[u8], input: &[u8], key_size: KeySize) -> (r: Vec<u8>)
    requires
        input@.len() + key_size.spec_block_size() <= usize::MAX,
    ensures
        r@ == decryption(key@, input@, key_size),
{
    let (block_size, rounds, mut blocks, master_key) = prepare_input(key, input, key_size);
    let n = blocks.len();
    let mut block_idx: usize = 0;
    while block_idx < n
        invariant
            n == blocks@.len(),
            block_idx <= n,
            block_size == key_size.spec_block_size(),
            rounds == key_size.spec_rounds(),
            master_key@ == master_key_of(key@, key_size),
            master_key@.len() == block_size,
            forall|i: int|
                0 <= i < block_idx ==> (#[trigger] blocks@[i])@ == decrypted_block(
                    key@,
                    input@,
                    key_size,
                    i as nat,
                ),
            forall|i: int|
                block_idx <= i < n ==> (#[trigger] blocks@[i])@ == padded_block(
                    input@,
                    block_size as nat,
                    i as nat,
                ),
            forall|i: int| 0 <= i < n ==> (#[trigger] blocks@[i])@.len() == block_size,
        decreases n - block_idx,
    {
        let round_keys = derive_subkeys(&master_key, block_size, rounds, block_idx);
        let new_block = decrypt_block(tables, &blocks[block_idx], &round_keys, block_idx);
        proof {
            assert(views(round_keys@) =~= block_round_keys(key@, key_size, block_idx as nat));
        }
        blocks.set(block_idx, new_block);
        block_idx = block_idx + 1;
    }
    let mut output = concat_blocks(&blocks, block_size);
    proof {
        assert(output@ =~= decrypted_blocks(key@, input@, key_size));
    }
    let ghost full = output@;
    while output.len() > 0 && output[output.len() - 1] == 0
        invariant
            strip_trailing_zeros(output@) == strip_trailing_zeros(full),
        decreases output@.len(),
    {
        proof {
            assert(output@.drop_last() =~= output@.subrange(0, output@.len() - 1));
        }
        output.pop();
    }
    output
}

proof fn lemma_xor_twice(a: u8, k: u8)
    by (bit_vector)
    ensures
        ((a ^ k) as u8 ^ k) as u8 == a,
{
}

/// A decryption round undoes the encryption round with the same key and amount.
proof fn lemma_round_inverse(x: Seq<u8>, key: Seq<u8>, amount: nat)
    requires
        amount < x.len(),
    ensures
        dec_round(enc_round(x, key, amount), key, amount) == x,
        enc_round(x, key, amount).len() == x.len(),
{
    let n = x.len() as int;
    let y = xor_seq(sub_seq(x), key);
    let rotated = rotl_seq(y, amount);
    let back = rotr_seq(rotated, amount);
    assert forall|j: int| 0 <= j < n implies back[j] == y[j] by {
        lemma_mod_wrap(j + n - amount, n);
        let m = (j + n - amount) % n;
        lemma_mod_wrap(m + amount, n);
    }
    assert(back =~= y);
    let unkeyed = xor_seq(back, key);
    assert forall|j: int| 0 <= j < n implies unkeyed[j] == sub_seq(x)[j] by {
        lemma_xor_twice(sub_seq(x)[j], key[j]);
    }
    crate::sbox::lemma_substitution_bijection();
    assert(inv_sub_seq(unkeyed) =~= x);
}

/// Undoing all the rounds of a block gives the block back.
proof fn lemma_block_round_trip(b: Seq<u8>, keys: Seq<Seq<u8>>, index: nat, bs: nat, r: nat)
    requires
        b.len() == bs,
        bs > 0,
    ensures
        dec_rounds(enc_rounds(b, keys, index, bs, r), keys, index, bs, r) == b,
        enc_rounds(b, keys, index, bs, r).len() == bs,
    decreases r,
{
    if r > 0 {
        let prev = enc_rounds(b, keys, index, bs, (r - 1) as nat);
        lemma_block_round_trip(b, keys, index, bs, (r - 1) as nat);
        let amount = rotation(index, (r - 1) as nat, bs);
        lemma_round_inverse(prev, keys[r - 1], amount);
    }
}

/// A whole number of blocks covers `len` with less than one block to spare.
proof fn lemma_block_count_bounds(len: nat, bs: nat)
    requires
        bs > 0,
    ensures
        len <= block_count(len, bs) * bs < len + bs,
{
    let x = (len + bs - 1) as int;
    vstd::arithmetic::div_mod::lemma_fundamental_div_mod(x, bs as int);
    assert(0 <= x % (bs as int) < bs);
    assert(bs * (x / (bs as int)) == (x / (bs as int)) * bs) by (nonlinear_arith);
}

/// Stripping the trailing zeros of `p` followed by zeros gives `p` back when `p` is empty
/// or ends in a nonzero byte.
proof fn lemma_strip_padding(s: Seq<u8>, p: Seq<u8>)
    requires
        p.len() <= s.len(),
        forall|j: int| 0 <= j < p.len() ==> s[j] == p[j],
        forall|j: int| p.len() <= j < s.len() ==> s[j] == 0,
        p.len() == 0 || p.last() != 0,
    ensures
        strip_trailing_zeros(s) == p,
    decreases s.len(),
{
    if s.len() > p.len() {
        lemma_strip_padding(s.drop_last(), p);
    } else {
        assert(s =~= p);
    }
}

/// Round trip: decrypting the encryption of `plain` with the same passphrase and level
/// gives `plain` back, for every plaintext that does not end in a zero byte.
pub proof fn lemma_round_trip(key: Seq<u8>, plain: Seq<u8>, key_size: KeySize)
    requires
        plain.len() == 0 || plain.last() != 0,
    ensures
        decryption(key, encryption(key, plain, key_size), key_size) == plain,
{
    let bs = key_size.spec_block_size();
    let nb = block_count(plain.len(), bs);
    let e = encryption(key, plain, key_size);
    lemma_block_count_bounds(plain.len(), bs);
    lemma_block_count(nb * bs, bs, nb, nb * bs);
    let d = decrypted_blocks(key, e, key_size);
    assert forall|j: int| 0 <= j < d.len() implies d[j] == (if j < plain.len() {
        plain[j]
    } else {
        0u8
    }) by {
        let i = j / bs as int;
        let k = j % bs as int;
        vstd::arithmetic::div_mod::lemma_fundamental_div_mod(j, bs as int);
        assert(bs * i == i * bs) by (nonlinear_arith);
        assert(0 <= i < nb) by (nonlinear_arith)
            requires
                j == i * bs + k,
                0 <= k < bs,
                0 <= j < nb * bs,
        ;
        assert forall|m: int| 0 <= m < bs implies #[trigger] padded_block(e, bs, i as nat)[m]
            == encrypted_block(key, plain, key_size, i as nat)[m] by {
            assert(i * bs + m < nb * bs) by (nonlinear_arith)
                requires
                    0 <= i < nb,
                    0 <= m < bs,
            ;
            vstd::arithmetic::div_mod::lemma_fundamental_div_mod_converse(
                i * bs + m,
                bs as int,
                i,
                m,
            );
        }
        let keys = block_round_keys(key, key_size, i as nat);
        let pb = padded_block(plain, bs, i as nat);
        lemma_block_round_trip(pb, keys, i as nat, bs, key_size.spec_rounds());
        assert(padded_block(e, bs, i as nat) =~= encrypted_block(key, plain, key_size, i as nat));
    }
    lemma_strip_padding(d, plain);
}

/// For a nonempty plaintext of at most 32 bytes, each level gives a ciphertext of a
/// different length: one block of its own size.
pub proof fn lemma_short_input_lengths_differ(key: Seq<u8>, plain: Seq<u8>, a: KeySize, b: KeySize)
    requires
        0 < plain.len() <= 32,
        a != b,
    ensures
        encryption(key, plain, a).len() == a.spec_block_size(),
        encryption(key, plain, a).len() != encryption(key, plain, b).len(),
{
    lemma_block_count(plain.len(), a.spec_block_size(), 1, a.spec_block_size());
    lemma_block_count(plain.len(), b.spec_block_size(), 1, b.spec_block_size());
}

} // verus!
