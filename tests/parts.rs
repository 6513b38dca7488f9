use diy_cipher::cipher::{concat_blocks, prepare_input, rotate_left, rotate_right};
use diy_cipher::config::KeySize;
use diy_cipher::keys::{derive_subkeys, get_master_key, offset_bytes, xor};
use diy_cipher::sbox::{initialize_aes_sbox, SubstitutionTables};

fn xof(msg: &[u8], len: usize) -> Vec<u8> {
    let mut out = vec![0u8; len];
    let mut hasher = blake3::Hasher::new();
    hasher.update(msg);
    hasher.finalize_xof().fill(&mut out);
    out
}

#[test]
fn level_constants() {
    assert_eq!(KeySize::Bits256.block_size(), 32);
    assert_eq!(KeySize::Bits384.block_size(), 48);
    assert_eq!(KeySize::Bits512.block_size(), 64);
    assert_eq!(KeySize::Bits256.rounds(), 14);
    assert_eq!(KeySize::Bits384.rounds(), 16);
    assert_eq!(KeySize::Bits512.rounds(), 18);
}

#[test]
fn tables_are_inverse_bijections() {
    let (sbox, inverse) = initialize_aes_sbox();
    assert_eq!(sbox.len(), 256);
    assert_eq!(inverse.len(), 256);
    let mut seen = [false; 256];
    for x in 0..256usize {
        assert_eq!(inverse[sbox[x] as usize] as usize, x);
        assert_eq!(sbox[inverse[x] as usize] as usize, x);
        assert!(!seen[sbox[x] as usize]);
        seen[sbox[x] as usize] = true;
    }
}

#[test]
fn tables_hold_known_values() {
    let (sbox, inverse) = initialize_aes_sbox();
    assert_eq!(sbox[0x00], 0x63);
    assert_eq!(sbox[0x01], 0x7c);
    assert_eq!(sbox[0x53], 0xed);
    assert_eq!(sbox[0xff], 0x16);
    assert_eq!(inverse[0x63], 0x00);
    assert_eq!(inverse[0x00], 0x52);
    let tables = SubstitutionTables::new();
    assert_eq!(tables.substitute(0x53), 0xed);
    assert_eq!(tables.invert(0xed), 0x53);
}

#[test]
fn xor_of_bytes() {
    assert_eq!(xor(&[0xff, 0x0f, 0x00], &[0x0f, 0x0f, 0xaa]), vec![0xf0, 0x00, 0xaa]);
    assert!(xor(&[], &[]).is_empty());
}

#[test]
fn offset_is_little_endian_and_padded() {
    let pad = offset_bytes(0x0102, 32);
    assert_eq!(pad.len(), 32);
    assert_eq!(&pad[..3], &[0x02, 0x01, 0x00]);
    assert!(pad[2..].iter().all(|&b| b == 0));
    assert_eq!(offset_bytes(0, 4), vec![0, 0, 0, 0]);
}

#[test]
fn rotations() {
    assert_eq!(rotate_left(&[1, 2, 3, 4], 1), vec![2, 3, 4, 1]);
    assert_eq!(rotate_right(&[1, 2, 3, 4], 1), vec![4, 1, 2, 3]);
    assert_eq!(rotate_left(&[1, 2, 3, 4], 0), vec![1, 2, 3, 4]);
    assert_eq!(rotate_right(&rotate_left(&[9, 8, 7, 6, 5], 3), 3), vec![9, 8, 7, 6, 5]);
}

#[test]
fn master_key_is_the_hash_output() {
    let m = get_master_key(b"key", KeySize::Bits384);
    assert_eq!(m.len(), 48);
    assert_eq!(m, xof(b"key", 48));
    assert_ne!(m, get_master_key(b"key", KeySize::Bits256));
    assert_eq!(m, get_master_key(b"key", KeySize::Bits384));
}

#[test]
fn subkeys_are_an_offset_seed_then_a_hash_chain() {
    let seed = get_master_key(b"key", KeySize::Bits256);
    let keys = derive_subkeys(&seed, 32, 14, 3);
    assert_eq!(keys.len(), 14);
    let mut first = seed.clone();
    first[0] ^= 3;
    assert_eq!(keys[0], first);
    for r in 1..14 {
        assert_eq!(keys[r], xof(&keys[r - 1], 32));
    }
    assert_eq!(keys, derive_subkeys(&seed, 32, 14, 3));
    assert_ne!(keys[0], derive_subkeys(&seed, 32, 14, 4)[0]);
}

#[test]
fn master_key_is_sensitive_to_each_bit() {
    let base = get_master_key(b"passphrase", KeySize::Bits256);
    for byte in 0..10 {
        for bit in 0..8 {
            let mut key = b"passphrase".to_vec();
            key[byte] ^= 1 << bit;
            let other = get_master_key(&key, KeySize::Bits256);
            let distance: u32 = base.iter().zip(&other).map(|(a, b)| (a ^ b).count_ones()).sum();
            assert!(distance > 64 && distance < 192, "distance {}", distance);
        }
    }
}

#[test]
fn input_is_split_and_padded() {
    let input: Vec<u8> = (1..=40u8).collect();
    let (bs, rounds, blocks, master) = prepare_input(b"key", &input, KeySize::Bits256);
    assert_eq!((bs, rounds), (32, 14));
    assert_eq!(blocks.len(), 2);
    assert_eq!(blocks[0], input[..32].to_vec());
    assert_eq!(&blocks[1][..8], &input[32..]);
    assert!(blocks[1][8..].iter().all(|&b| b == 0));
    assert_eq!(master, xof(b"key", 32));
    assert_eq!(concat_blocks(&blocks, 32).len(), 64);
    assert_eq!(&concat_blocks(&blocks, 32)[..40], &input[..]);
}
