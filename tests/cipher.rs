use diy_cipher::cipher::{decrypt, encrypt};
use diy_cipher::config::KeySize;
use diy_cipher::sbox::SubstitutionTables;
use rand::Rng;

/// Generates a random bitstring for testing
fn gen_random_str() -> Vec<u8> {
    let rand_len = rand::thread_rng().gen_range(1..4096);

    let random_bytes: Vec<u8> = (0..rand_len).map(|_| rand::random::<u8>()).collect();

    random_bytes
}

/// Test encryption and decryption of a message with 256 bit key size
#[test]
fn test_encrypt_decrypt_256() {
    let tables = SubstitutionTables::new();
    let key: Vec<u8> = gen_random_str();
    let input = gen_random_str();
    let key_size = KeySize::Bits256;

    let encrypted = encrypt(&tables, &key, &input, key_size);
    let decrypted = decrypt(&tables, &key, &encrypted, key_size);

    assert_eq!(input, decrypted.as_slice());
}

/// Test encryption and decryption of a message with 384 bit key size
#[test]
fn test_encrypt_decrypt_384() {
    let tables = SubstitutionTables::new();
    let key: Vec<u8> = gen_random_str();
    let input = gen_random_str();
    let key_size = KeySize::Bits384;

    let encrypted = encrypt(&tables, &key, &input, key_size);
    let decrypted = decrypt(&tables, &key, &encrypted, key_size);

    assert_eq!(input, decrypted.as_slice());
}

/// Test encryption and decryption of a message with 512 bit key size
#[test]
fn test_encrypt_decrypt_512() {
    let tables = SubstitutionTables::new();
    let key: Vec<u8> = gen_random_str();
    let input = gen_random_str();
    let key_size = KeySize::Bits512;

    let encrypted = encrypt(&tables, &key, &input, key_size);
    let decrypted = decrypt(&tables, &key, &encrypted, key_size);

    assert_eq!(input, decrypted.as_slice());
}

#[test]
fn hello_under_256_is_one_block_and_comes_back() {
    let tables = SubstitutionTables::new();
    let encrypted = encrypt(&tables, b"key", b"hello", KeySize::Bits256);
    assert_eq!(encrypted.len(), 32);
    assert_ne!(&encrypted[..5], b"hello");
    let decrypted = decrypt(&tables, b"key", &encrypted, KeySize::Bits256);
    assert_eq!(decrypted, b"hello".to_vec());
}

#[test]
fn seventy_bytes_make_three_blocks() {
    let tables = SubstitutionTables::new();
    let plain: Vec<u8> = (0..70u32).map(|i| (i % 251 + 1) as u8).collect();
    let encrypted = encrypt(&tables, b"key", &plain, KeySize::Bits256);
    assert_eq!(encrypted.len(), 96);
    let decrypted = decrypt(&tables, b"key", &encrypted, KeySize::Bits256);
    assert_eq!(decrypted, plain);
}

#[test]
fn levels_give_different_ciphertexts() {
    let tables = SubstitutionTables::new();
    let a = encrypt(&tables, b"key", b"hello", KeySize::Bits256);
    let b = encrypt(&tables, b"key", b"hello", KeySize::Bits384);
    let c = encrypt(&tables, b"key", b"hello", KeySize::Bits512);
    assert_eq!(a.len(), 32);
    assert_eq!(b.len(), 48);
    assert_eq!(c.len(), 64);
    assert_ne!(a[..], b[..32]);
    assert_ne!(a[..], c[..32]);
    assert_ne!(b[..], c[..48]);
}

#[test]
fn empty_input_gives_empty_output() {
    let tables = SubstitutionTables::new();
    assert!(encrypt(&tables, b"key", b"", KeySize::Bits256).is_empty());
    assert!(encrypt(&tables, b"", b"", KeySize::Bits512).is_empty());
    assert!(decrypt(&tables, b"key", b"", KeySize::Bits384).is_empty());
}

#[test]
fn output_is_whole_blocks() {
    let tables = SubstitutionTables::new();
    for (size, bs) in [(KeySize::Bits256, 32), (KeySize::Bits384, 48), (KeySize::Bits512, 64)] {
        for n in [1usize, 31, 32, 33, 47, 48, 49, 64, 65, 100] {
            let plain = vec![7u8; n];
            let encrypted = encrypt(&tables, b"pass", &plain, size);
            assert_eq!(encrypted.len() % bs, 0);
            assert_eq!(encrypted.len(), (n + bs - 1) / bs * bs);
        }
    }
}

#[test]
fn empty_passphrase_round_trips() {
    let tables = SubstitutionTables::new();
    let plain = b"some text with no zero at the end".to_vec();
    let encrypted = encrypt(&tables, b"", &plain, KeySize::Bits384);
    assert_eq!(decrypt(&tables, b"", &encrypted, KeySize::Bits384), plain);
}

#[test]
fn trailing_zeros_of_the_plaintext_are_lost() {
    let tables = SubstitutionTables::new();
    let plain = vec![1u8, 2, 3, 0, 0];
    let encrypted = encrypt(&tables, b"key", &plain, KeySize::Bits256);
    assert_eq!(decrypt(&tables, b"key", &encrypted, KeySize::Bits256), vec![1u8, 2, 3]);
}

#[test]
fn identical_blocks_encrypt_differently() {
    let tables = SubstitutionTables::new();
    let plain = vec![5u8; 64];
    let encrypted = encrypt(&tables, b"key", &plain, KeySize::Bits256);
    assert_ne!(encrypted[..32], encrypted[32..]);
}

#[test]
fn wrong_passphrase_does_not_decrypt() {
    let tables = SubstitutionTables::new();
    let encrypted = encrypt(&tables, b"key", b"hello", KeySize::Bits256);
    assert_ne!(decrypt(&tables, b"kez", &encrypted, KeySize::Bits256), b"hello".to_vec());
}

#[test]
fn encryption_is_deterministic() {
    let tables = SubstitutionTables::new();
    let a = encrypt(&tables, b"key", b"hello world", KeySize::Bits512);
    let b = encrypt(&tables, b"key", b"hello world", KeySize::Bits512);
    assert_eq!(a, b);
}
