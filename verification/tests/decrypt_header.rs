use bhd_archive::primitives::PublicKey;
use bhd_archive::util::{
    append_block_payload, decrypt_blocks, decrypt_header, has_passphrase_field, HeaderParseError,
};
use openssl::pkey::Private;
use openssl::rsa::{Padding, Rsa};

/// Packs `blob` the way the archive's packaging tool does: every block of
/// one byte less than the modulus gets a leading byte in front and is then
/// raised to the private exponent.
fn pack(rsa: &Rsa<Private>, blob: &[u8], leading: u8) -> Vec<u8> {
    let key_size = rsa.size() as usize;
    assert_eq!(blob.len() % (key_size - 1), 0);
    let mut file = Vec::new();
    for chunk in blob.chunks(key_size - 1) {
        let mut block = vec![leading];
        block.extend_from_slice(chunk);
        let mut out = vec![0u8; key_size];
        let written = rsa.private_encrypt(&block, &mut out, Padding::NONE).unwrap();
        assert_eq!(written, key_size);
        file.extend_from_slice(&out);
    }
    file
}

fn public_key_of(rsa: &Rsa<Private>) -> PublicKey {
    PublicKey { modulus: rsa.n().to_vec(), exponent: rsa.e().to_vec() }
}

fn sample_blob(len: usize) -> Vec<u8> {
    (0..len).map(|i| (i * 7 + 3) as u8).collect()
}

#[test]
fn textbook_block_is_raised_to_the_public_exponent() {
    // n = 3233, e = 17: 588^17 mod 3233 = 65, which is the block 00 41.
    let key = PublicKey { modulus: vec![0x0c, 0xa1], exponent: vec![0x11] };
    assert_eq!(decrypt_blocks(&[0x02, 0x4c], &key), Ok(vec![0x41]));
}

#[test]
fn textbook_blocks_are_decrypted_each_on_its_own() {
    // 588^17 = 65, 1983^17 = 226, 850^17 = 321 and 621^17 = 255, all mod 3233:
    // the blocks 00 41, 00 e2, 01 41 and 00 ff.
    let key = PublicKey { modulus: vec![0x0c, 0xa1], exponent: vec![0x11] };
    assert_eq!(
        decrypt_blocks(&[0x02, 0x4c, 0x07, 0xbf, 0x03, 0x52, 0x02, 0x6d], &key),
        Ok(vec![0x41, 0xe2, 0x41, 0xff])
    );
}

#[test]
fn packed_block_round_trips() {
    let rsa = Rsa::generate(1024).unwrap();
    let pem = rsa.public_key_to_pem_pkcs1().unwrap();
    let blob = sample_blob(127);
    let file = pack(&rsa, &blob, 0);
    assert_eq!(file.len(), 128);
    assert_ne!(&file[1..], &blob[..]);
    assert_eq!(decrypt_header(&file, &pem), Ok(blob));
}

#[test]
fn packed_blocks_round_trip_in_order() {
    let rsa = Rsa::generate(1024).unwrap();
    let pem = rsa.public_key_to_pem_pkcs1().unwrap();
    let blob = sample_blob(127 * 5);
    let file = pack(&rsa, &blob, 0);
    assert_eq!(file.len(), 128 * 5);
    assert_eq!(decrypt_header(&file, &pem), Ok(blob.clone()));
    assert_eq!(decrypt_blocks(&file, &public_key_of(&rsa)), Ok(blob));
}

#[test]
fn leading_byte_of_every_block_is_dropped_whatever_it_is() {
    let rsa = Rsa::generate(1024).unwrap();
    let pem = rsa.public_key_to_pem_pkcs1().unwrap();
    let blob = sample_blob(127 * 2);
    let file = pack(&rsa, &blob, 0x01);
    assert_eq!(decrypt_header(&file, &pem), Ok(blob));
}

#[test]
fn blob_is_shorter_than_the_file_by_one_byte_per_block() {
    let rsa = Rsa::generate(1024).unwrap();
    let pem = rsa.public_key_to_pem_pkcs1().unwrap();
    let file = pack(&rsa, &sample_blob(127 * 3), 0);
    let blob = decrypt_header(&file, &pem).unwrap();
    assert_eq!(blob.len(), file.len() - 3);
}

#[test]
fn empty_file_gives_empty_blob() {
    let rsa = Rsa::generate(1024).unwrap();
    let pem = rsa.public_key_to_pem_pkcs1().unwrap();
    assert_eq!(decrypt_header(&[], &pem), Ok(vec![]));
}

#[test]
fn file_that_is_not_whole_blocks_is_refused() {
    let rsa = Rsa::generate(1024).unwrap();
    let pem = rsa.public_key_to_pem_pkcs1().unwrap();
    let file = pack(&rsa, &sample_blob(127 * 2), 0);
    assert_eq!(decrypt_header(&file[..255], &pem), Err(HeaderParseError::Decrypt));
    assert_eq!(decrypt_header(&file[..129], &pem), Err(HeaderParseError::Decrypt));
    assert_eq!(decrypt_header(&file[..1], &pem), Err(HeaderParseError::Decrypt));
    assert_eq!(decrypt_header(&file[..127], &pem), Err(HeaderParseError::Decrypt));
    let mut longer = file.clone();
    longer.push(0);
    assert_eq!(decrypt_header(&longer, &pem), Err(HeaderParseError::Decrypt));
    assert!(decrypt_header(&file[..128], &pem).is_ok());
}

#[test]
fn block_that_is_not_below_the_modulus_is_refused() {
    let rsa = Rsa::generate(1024).unwrap();
    let pem = rsa.public_key_to_pem_pkcs1().unwrap();
    let mut file = pack(&rsa, &sample_blob(127 * 2), 0);
    for byte in file[128..].iter_mut() {
        *byte = 0xff;
    }
    assert_eq!(decrypt_header(&file, &pem), Err(HeaderParseError::Decrypt));
    assert_eq!(
        decrypt_blocks(&[0x0c, 0xa1], &PublicKey { modulus: vec![0x0c, 0xa1], exponent: vec![0x11] }),
        Err(HeaderParseError::Decrypt)
    );
}

#[test]
fn malformed_key_is_refused() {
    let file = vec![0u8; 128];
    assert_eq!(decrypt_header(&file, b""), Err(HeaderParseError::InvalidKey));
    assert_eq!(decrypt_header(&file, b"not a key"), Err(HeaderParseError::InvalidKey));
    assert_eq!(
        decrypt_header(
            &file,
            b"-----BEGIN RSA PUBLIC KEY-----\nAAAA\n-----END RSA PUBLIC KEY-----\n"
        ),
        Err(HeaderParseError::InvalidKey)
    );
    assert_eq!(decrypt_header(&[], b"not a key"), Err(HeaderParseError::InvalidKey));
}

#[test]
fn key_in_another_encoding_is_refused() {
    let rsa = Rsa::generate(1024).unwrap();
    let file = pack(&rsa, &sample_blob(127), 0);
    let spki = rsa.public_key_to_pem().unwrap();
    assert_eq!(decrypt_header(&file, &spki), Err(HeaderParseError::InvalidKey));
}

#[test]
fn key_without_modulus_is_refused() {
    let key = PublicKey { modulus: vec![], exponent: vec![0x11] };
    assert_eq!(decrypt_blocks(&[], &key), Err(HeaderParseError::InvalidKey));
    assert_eq!(decrypt_blocks(&[1, 2], &key), Err(HeaderParseError::InvalidKey));
}

#[test]
fn modulus_with_leading_zero_gives_short_blocks_which_are_refused() {
    let key = PublicKey { modulus: vec![0x00, 0x0c, 0xa1], exponent: vec![0x11] };
    assert_eq!(decrypt_blocks(&[0x00, 0x02, 0x4c], &key), Err(HeaderParseError::Decrypt));
    assert_eq!(decrypt_blocks(&[], &key), Ok(vec![]));
}

#[test]
fn wrong_public_key_gives_other_bytes() {
    let rsa = Rsa::generate(1024).unwrap();
    let other = Rsa::generate(1024).unwrap();
    let blob = sample_blob(127);
    let mut file = pack(&rsa, &blob, 0);
    file[0] = 0;
    let right = decrypt_blocks(&file, &public_key_of(&rsa)).unwrap();
    let wrong = decrypt_blocks(&file, &public_key_of(&other)).unwrap();
    assert_eq!(right.len(), 127);
    assert_eq!(wrong.len(), 127);
    assert_ne!(right, wrong);
}

#[test]
fn append_block_payload_drops_the_first_byte() {
    let mut blob = vec![9, 9];
    assert!(append_block_payload(&mut blob, &[0xaa, 1, 2, 3], 4));
    assert_eq!(blob, vec![9, 9, 1, 2, 3]);
    assert!(append_block_payload(&mut blob, &[0x00], 1));
    assert_eq!(blob, vec![9, 9, 1, 2, 3]);
}

#[test]
fn append_block_payload_refuses_a_block_of_another_length() {
    let mut blob = vec![9, 9];
    assert!(!append_block_payload(&mut blob, &[0, 1, 2], 4));
    assert!(!append_block_payload(&mut blob, &[0, 1, 2, 3, 4], 4));
    assert!(!append_block_payload(&mut blob, &[], 0));
    assert_eq!(blob, vec![9, 9]);
}

#[test]
fn key_that_asks_for_a_passphrase_is_refused() {
    let pem = b"-----BEGIN RSA PUBLIC KEY-----\nProc-Type: 4,ENCRYPTED\nDEK-Info: AES-128-CBC,00112233445566778899AABBCCDDEEFF\n\nAAAA\n-----END RSA PUBLIC KEY-----\n";
    assert!(has_passphrase_field(pem));
    assert_eq!(decrypt_header(&[], pem), Err(HeaderParseError::InvalidKey));
    assert_eq!(decrypt_header(&[0u8; 128], pem), Err(HeaderParseError::InvalidKey));
}

#[test]
fn passphrase_field_is_found_wherever_it_stands() {
    assert!(has_passphrase_field(b"Proc-Type:"));
    assert!(has_passphrase_field(b"Proc-Type: 4,ENCRYPTED"));
    assert!(has_passphrase_field(b"xProc-Type:"));
    assert!(has_passphrase_field(b"Proc-Proc-Type:x"));
    assert!(has_passphrase_field(b"Proc-Type;Proc-TypeProc-Type:"));
    assert!(!has_passphrase_field(b""));
    assert!(!has_passphrase_field(b"Proc-Type"));
    assert!(!has_passphrase_field(b"roc-Type:"));
    assert!(!has_passphrase_field(b"proc-type:"));
    assert!(!has_passphrase_field(b"Proc-Type :"));
    assert!(!has_passphrase_field(b"Proc-Typ:eProc-Typ"));
}

#[test]
fn generated_key_does_not_ask_for_a_passphrase() {
    let rsa = Rsa::generate(1024).unwrap();
    assert!(!has_passphrase_field(&rsa.public_key_to_pem_pkcs1().unwrap()));
}
