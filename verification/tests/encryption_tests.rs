use crypto::buffer::{ReadBuffer, WriteBuffer};
use crypto::hmac::Hmac;
use crypto::sha2::Sha256;
use nscript::encryption::{decrypt_string, encrypt_string, encrypt_with_salt, try_decrypt_string};

fn reference_ciphertext(input: &str, passphrase: &str, salt: &[u8]) -> Vec<u8> {
    let mut mac = Hmac::new(Sha256::new(), passphrase.as_bytes());
    let mut key = [0u8; 32];
    crypto::pbkdf2::pbkdf2(&mut mac, salt, 100_000, &mut key);
    let mut enc = crypto::aes::cbc_encryptor(
        crypto::aes::KeySize::KeySize256,
        &key,
        &[0u8; 16],
        crypto::blockmodes::PkcsPadding,
    );
    let mut out = [0u8; 4096];
    let mut rb = crypto::buffer::RefReadBuffer::new(input.as_bytes());
    let mut wb = crypto::buffer::RefWriteBuffer::new(&mut out);
    enc.encrypt(&mut rb, &mut wb, true).unwrap();
    wb.take_read_buffer().take_remaining().to_vec()
}

#[test]
fn encryption_roundtrip() {
    let input = "Hello, World!";
    let encrypted = encrypt_string(input, "mysecretpassword");
    assert_ne!(encrypted, input);
    assert_eq!(try_decrypt_string(&encrypted, "mysecretpassword"), Some(input.to_string()));
}

#[test]
fn decrypt_string_roundtrip() {
    let encrypted = encrypt_string("ünïcode and a block of sixteen", "k");
    assert_eq!(decrypt_string(&encrypted, "k"), "ünïcode and a block of sixteen");
}

#[test]
fn encryption_uses_fresh_salt() {
    let a = encrypt_string("", "p");
    let b = encrypt_string("", "p");
    assert_ne!(a, b);
    assert_eq!(a.len(), 44);
}

#[test]
fn decrypt_rejects_malformed_text() {
    assert_eq!(try_decrypt_string("not base64!!", "p"), None);
    assert_eq!(try_decrypt_string("AAAA", "p"), None);
    assert_eq!(try_decrypt_string("AAAAAAAAAAAAAAAAAAAAAAAAAAAAAAAAAA==", "p"), None);
}

#[test]
fn decrypt_with_wrong_passphrase_differs() {
    let encrypted = encrypt_string("secret text", "right");
    assert_ne!(try_decrypt_string(&encrypted, "wrong"), Some("secret text".to_string()));
}

#[test]
fn encrypt_with_salt_layout() {
    let salt: Vec<u8> = (1u8..=16).collect();
    let input = "Hello, World!";
    let text = encrypt_with_salt(input, "pass", &salt);
    assert_eq!(encrypt_with_salt(input, "pass", &salt), text);
    let bytes = base64::decode(&text).unwrap();
    assert_eq!(bytes.len(), 32);
    assert_eq!(&bytes[..16], &salt[..]);
    assert_eq!(bytes[16..].to_vec(), reference_ciphertext(input, "pass", &salt));
    assert_eq!(decrypt_string(&text, "pass"), input);
}

#[test]
fn encrypt_with_salt_whole_blocks() {
    let salt = [7u8; 16];
    let bytes = base64::decode(&encrypt_with_salt("exactly sixteen!", "p", &salt)).unwrap();
    assert!(bytes.len() >= 16);
    assert_eq!((bytes.len() - 16) % 16, 0);
    assert_eq!(bytes.len(), 48);
    assert_eq!(&bytes[..16], &salt[..]);
}
