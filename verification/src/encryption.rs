//! Passphrase encryption of strings: a random salt, a key derived from the
//! passphrase with PBKDF2-HMAC-SHA256, AES-256-CBC with a zero initial
//! vector and PKCS#7 padding, and Base64 of the salt followed by the
//! ciphertext.
use vstd::prelude::*;
use vstd::string::StringSliceAdditionalSpecFns;
use vstd::utf8::{decode_utf8, encode_utf8, encode_utf8_decode_utf8, encode_utf8_valid_utf8, valid_utf8};

use crate::bindings::{
    aes256_cbc_decrypt, aes256_cbc_decryption, aes256_cbc_encrypt, aes256_cbc_encryption,
    base64_decode, base64_decoded, base64_encode, pbkdf2_hmac_sha256, pbkdf2_sha256_key,
    random_bytes, utf8_lossy, utf8_lossy_string,
};
use crate::functions::base64_text;

verus! {

/// The length of the salt in bytes.
pub const SALT_SIZE: usize = 16;

/// The length of the derived key in bytes.
pub const KEY_SIZE: usize = 32;

/// The length of the initial vector in bytes.
pub const IV_SIZE: usize = 16;

/// The number of PBKDF2 rounds.
pub const KEY_ROUNDS: u32 = 100_000;

/// The initial vector: sixteen zero bytes.
pub open spec fn zero_iv() -> Seq<u8> {
    Seq::new(16, |i: int| 0u8)
}

/// The data followed by PKCS#7 padding up to a whole number of 16-byte
/// blocks: `n` bytes of value `n`, `n` from 1 to 16.
pub open spec fn pkcs7_padded(data: Seq<u8>) -> Seq<u8> {
    let n = 16 - data.len() % 16;
    data + Seq::new(n as nat, |i: int| n as u8)
}

/// The data without its PKCS#7 padding; `None` when the padding is not
/// well formed.
pub open spec fn pkcs7_unpadded(data: Seq<u8>) -> Option<Seq<u8>> {
    if data.len() == 0 {
        None
    } else {
        let n = data.last() as int;
        if 1 <= n <= 16 && n <= data.len() && forall|i: int|
            data.len() - n <= i < data.len() ==> #[trigger] data[i] == n as u8 {
            Some(data.take(data.len() - n))
        } else {
            None
        }
    }
}

/// The key derived from a passphrase and a salt.
pub open spec fn derived_key(passphrase: Seq<u8>, salt: Seq<u8>) -> Seq<u8> {
    pbkdf2_sha256_key(passphrase, salt, 100_000, 32)
}

/// The ciphertext of `plain` under `passphrase` with the given salt.
pub open spec fn encrypted_bytes(plain: Seq<u8>, passphrase: Seq<u8>, salt: Seq<u8>) -> Seq<u8> {
    aes256_cbc_encryption(derived_key(passphrase, salt), zero_iv(), pkcs7_padded(plain))
}

/// The text that encrypts `plain` under `passphrase` with the given salt.
pub open spec fn encrypted_text(plain: Seq<u8>, passphrase: Seq<u8>, salt: Seq<u8>) -> Seq<char> {
    base64_text(salt + encrypted_bytes(plain, passphrase, salt))
}

/// `text` encrypts `plain` under `passphrase` with the 16-byte `salt`: it is
/// the Base64 text of the salt followed by the ciphertext, which is whole
/// 16-byte blocks, as long as the padded plain bytes, and decrypts back to
/// them.
pub open spec fn is_encryption(text: Seq<char>, plain: Seq<u8>, passphrase: Seq<u8>, salt: Seq<u8>) -> bool {
    &&& salt.len() == 16
    &&& text == encrypted_text(plain, passphrase, salt)
    &&& base64_decoded(text) == Some(salt + encrypted_bytes(plain, passphrase, salt))
    &&& encrypted_bytes(plain, passphrase, salt).len() == pkcs7_padded(plain).len()
    &&& pkcs7_padded(plain).len() % 16 == 0
    &&& aes256_cbc_decryption(derived_key(passphrase, salt), zero_iv(), encrypted_bytes(plain, passphrase, salt))
        == Some(pkcs7_padded(plain))
}

/// What `encrypt_with_salt` or `encrypt_string` writes decrypts, under the
/// same passphrase, to the bytes that were encrypted; so `decrypt_string`
/// may be called on it.
pub proof fn law_encryption_decrypts(text: Seq<char>, plain: Seq<u8>, passphrase: Seq<u8>, salt: Seq<u8>)
    requires
        is_encryption(text, plain, passphrase, salt),
    ensures
        decrypted_bytes(text, passphrase) == Some(plain),
        decrypted_text(text, passphrase) == Some(utf8_lossy(plain)),
{
    let d = salt + encrypted_bytes(plain, passphrase, salt);
    lemma_pkcs7_roundtrip(plain);
    assert(d.take(16) =~= salt);
    assert(d.skip(16) =~= encrypted_bytes(plain, passphrase, salt));
}

/// The text that an encrypted text decrypts to under `passphrase`; `None`
/// when it is not Base64 of at least a salt, the rest does not decrypt, or
/// the padding is malformed.
pub open spec fn decrypted_text(text: Seq<char>, passphrase: Seq<u8>) -> Option<Seq<char>> {
    match decrypted_bytes(text, passphrase) {
        Some(q) => Some(utf8_lossy(q)),
        None => None,
    }
}

/// The plain bytes that an encrypted text decrypts to under `passphrase`;
/// `None` when it is not Base64 of at least a salt, the rest does not
/// decrypt, or the padding is malformed.
pub open spec fn decrypted_bytes(text: Seq<char>, passphrase: Seq<u8>) -> Option<Seq<u8>> {
    match base64_decoded(text) {
        Some(d) => if d.len() < 16 {
            None
        } else {
            match aes256_cbc_decryption(derived_key(passphrase, d.take(16)), zero_iv(), d.skip(16)) {
                Some(p) => pkcs7_unpadded(p),
                None => None,
            }
        },
        None => None,
    }
}

/// Removing the padding gives back what was padded.
pub proof fn lemma_pkcs7_roundtrip(data: Seq<u8>)
    ensures
        pkcs7_padded(data).len() % 16 == 0,
        pkcs7_unpadded(pkcs7_padded(data)) == Some(data),
{
    let p = pkcs7_padded(data);
    let n = 16 - data.len() % 16;
    assert(p.len() == data.len() + n);
    assert(p.last() == n as u8);
    assert(p.take(p.len() - n) =~= data);
}

/// The bytes of `a` followed by those of `b`.
fn concat_bytes(a: &[u8], b: &[u8]) -> (r: Vec<u8>)
    ensures
        r@ == a@ + b@,
{
    let mut r: Vec<u8> = Vec::new();
    let mut i: usize = 0;
    while i < a.len()
        invariant
            i <= a@.len(),
            r@ == a@.take(i as int),
        decreases a@.len() - i,
    {
        r.push(a[i]);
        assert(r@ =~= a@.take(i + 1));
        i = i + 1;
    }
    let mut j: usize = 0;
    assert(a@.take(a@.len() as int) =~= a@);
    while j < b.len()
        invariant
            j <= b@.len(),
            r@ == a@ + b@.take(j as int),
        decreases b@.len() - j,
    {
        r.push(b[j]);
        assert(r@ =~= a@ + b@.take(j + 1));
        j = j + 1;
    }
    assert(b@.take(b@.len() as int) =~= b@);
    r
}

/// The bytes of `v` from `from` up to `to`.
fn slice_bytes(v: &Vec<u8>, from: usize, to: usize) -> (r: Vec<u8>)
    requires
        from <= to <= v.len(),
    ensures
        r@ == v@.subrange(from as int, to as int),
{
    let mut r: Vec<u8> = Vec::new();
    let mut i = from;
    while i < to
        invariant
            from <= i <= to <= v.len(),
            r@ == v@.subrange(from as int, i as int),
        decreases to - i,
    {
        r.push(v[i]);
        assert(r@ =~= v@.subrange(from as int, i + 1));
        i = i + 1;
    }
    r
}

/// The data with PKCS#7 padding, as `pkcs7_padded` says.
fn pad(data: &[u8]) -> (r: Vec<u8>)
    ensures
        r@ == pkcs7_padded(data@),
{
    let mut r: Vec<u8> = Vec::new();
    let mut i: usize = 0;
    while i < data.len()
        invariant
            i <= data@.len(),
            r@ == data@.take(i as int),
        decreases data@.len() - i,
    {
        r.push(data[i]);
        assert(r@ =~= data@.take(i + 1));
        i = i + 1;
    }
    let n: u8 = (16 - data.len() % 16) as u8;
    let mut k: u8 = 0;
    while k < n
        invariant
            k <= n,
            n == 16 - data@.len() % 16,
            r@ == data@ + Seq::new(k as nat, |j: int| n),
        decreases n - k,
    {
        r.push(n);
        assert(r@ =~= data@ + Seq::new((k + 1) as nat, |j: int| n));
        k = k + 1;
    }
    assert(r@ =~= pkcs7_padded(data@));
    r
}

/// The data without its PKCS#7 padding, as `pkcs7_unpadded` says.
fn unpad(data: &Vec<u8>) -> (r: Option<Vec<u8>>)
    ensures
        match r {
            Some(v) => pkcs7_unpadded(data@) == Some(v@),
            None => pkcs7_unpadded(data@) is None,
        },
{
    let len = data.len();
    if len == 0 {
        return None;
    }
    let n = data[len - 1] as usize;
    if n < 1 || n > 16 || n > len {
        return None;
    }
    let mut i = len - n;
    while i < len
        invariant
            len == data@.len(),
            1 <= n <= 16,
            n <= len,
            n == data@.last() as int,
            len - n <= i <= len,
            forall|j: int| len - n <= j < i ==> #[trigger] data@[j] == n as u8,
        decreases len - i,
    {
        if data[i] as usize != n {
            return None;
        }
        i = i + 1;
    }
    Some(slice_bytes(data, 0, len - n))
}

/// A random salt.
fn generate_salt() -> (salt: Vec<u8>)
    ensures
        salt@.len() == 16,
{
    random_bytes(SALT_SIZE)
}

/// The key derived from the passphrase and the salt.
fn derive_key(passphrase: &str, salt: &[u8]) -> (key: Vec<u8>)
    ensures
        key@ == derived_key(passphrase.spec_bytes(), salt@),
        key@.len() == 32,
{
    pbkdf2_hmac_sha256(passphrase.as_bytes(), salt, KEY_ROUNDS, KEY_SIZE)
}

/// The initial vector, as `zero_iv` says.
fn zero_iv_bytes() -> (iv: Vec<u8>)
    ensures
        iv@ == zero_iv(),
{
    let mut iv: Vec<u8> = Vec::new();
    let mut i: usize = 0;
    while i < IV_SIZE
        invariant
            i <= 16,
            iv@ == Seq::new(i as nat, |j: int| 0u8),
        decreases 16 - i,
    {
        iv.push(0);
        assert(iv@ =~= Seq::new((i + 1) as nat, |j: int| 0u8));
        i = i + 1;
    }
    assert(iv@ =~= zero_iv());
    iv
}

/// Encrypts the string under the passphrase with the given salt.
pub fn encrypt_with_salt(input: &str, passphrase: &str, salt: &[u8]) -> (res: String)
    requires
        salt@.len() == 16,
    ensures
        is_encryption(res@, input.spec_bytes(), passphrase.spec_bytes(), salt@),
{
    let key = derive_key(passphrase, salt);
    let iv = zero_iv_bytes();
    let padded = pad(input.as_bytes());
    proof {
        lemma_pkcs7_roundtrip(input.spec_bytes());
    }
    let encrypted_data = aes256_cbc_encrypt(key.as_slice(), iv.as_slice(), padded.as_slice());
    let encrypted = concat_bytes(salt, encrypted_data.as_slice());
    base64_encode(encrypted.as_slice())
}

/// Encrypts the string under the passphrase with a fresh random salt.
pub fn encrypt_string(input: &str, passphrase: &str) -> (res: String)
    ensures
        exists|salt: Seq<u8>|
            is_encryption(res@, input.spec_bytes(), passphrase.spec_bytes(), salt),
{
    let salt = generate_salt();
    encrypt_with_salt(input, passphrase, salt.as_slice())
}

/// Decrypts a text made by `encrypt_string`; `None` when it is not one
/// that decrypts under the passphrase. A text that encrypts a string under
/// the passphrase, whatever the salt, decrypts to that string.
pub fn try_decrypt_string(input: &str, passphrase: &str) -> (res: Option<String>)
    ensures
        match decrypted_text(input@, passphrase.spec_bytes()) {
            Some(t) => res is Some && res->0@ == t,
            None => res is None,
        },
        decrypted_bytes(input@, passphrase.spec_bytes()) matches Some(b) ==> (valid_utf8(b)
            ==> res is Some && res->0@ == decode_utf8(b)),
        forall|x: Seq<char>, salt: Seq<u8>|
            salt.len() == 16 && input@ == #[trigger] encrypted_text(
                encode_utf8(x),
                passphrase.spec_bytes(),
                salt,
            ) ==> res is Some && res->0@ == x,
{
    let ghost pass = passphrase.spec_bytes();
    let decoded = match base64_decode(input) {
        Some(d) => d,
        None => {
            return None;
        },
    };
    if decoded.len() < SALT_SIZE {
        return None;
    }
    let salt = slice_bytes(&decoded, 0, SALT_SIZE);
    let ciphertext = slice_bytes(&decoded, SALT_SIZE, decoded.len());
    assert(salt@ =~= decoded@.take(16));
    assert(ciphertext@ =~= decoded@.skip(16));
    let key = derive_key(passphrase, salt.as_slice());
    let iv = zero_iv_bytes();
    let decrypted_data = match aes256_cbc_decrypt(key.as_slice(), iv.as_slice(), ciphertext.as_slice()) {
        Some(p) => p,
        None => {
            proof {
                assert forall|x: Seq<char>, salt0: Seq<u8>|
                    salt0.len() == 16 && input@ == #[trigger] encrypted_text(
                        encode_utf8(x),
                        pass,
                        salt0,
                    ) implies false by {
                    let padded = pkcs7_padded(encode_utf8(x));
                    let ct = aes256_cbc_encryption(derived_key(pass, salt0), zero_iv(), padded);
                    lemma_pkcs7_roundtrip(encode_utf8(x));
                    assert(decoded@ == salt0 + ct);
                    assert(salt@ =~= salt0);
                    assert(ciphertext@ =~= ct);
                }
            }
            return None;
        },
    };
    let plain = match unpad(&decrypted_data) {
        Some(q) => q,
        None => {
            proof {
                assert forall|x: Seq<char>, salt0: Seq<u8>|
                    salt0.len() == 16 && input@ == #[trigger] encrypted_text(
                        encode_utf8(x),
                        pass,
                        salt0,
                    ) implies false by {
                    let padded = pkcs7_padded(encode_utf8(x));
                    let ct = aes256_cbc_encryption(derived_key(pass, salt0), zero_iv(), padded);
                    lemma_pkcs7_roundtrip(encode_utf8(x));
                    assert(decoded@ == salt0 + ct);
                    assert(salt@ =~= salt0);
                    assert(ciphertext@ =~= ct);
                    assert(decrypted_data@ == padded);
                }
            }
            return None;
        },
    };
    let text = utf8_lossy_string(plain.as_slice());
    proof {
        assert forall|x: Seq<char>, salt0: Seq<u8>|
            salt0.len() == 16 && input@ == #[trigger] encrypted_text(encode_utf8(x), pass, salt0)
            implies text@ == x by {
            let padded = pkcs7_padded(encode_utf8(x));
            let ct = aes256_cbc_encryption(derived_key(pass, salt0), zero_iv(), padded);
            lemma_pkcs7_roundtrip(encode_utf8(x));
            assert(decoded@ == salt0 + ct);
            assert(salt@ =~= salt0);
            assert(ciphertext@ =~= ct);
            assert(decrypted_data@ == padded);
            assert(plain@ == encode_utf8(x));
            encode_utf8_valid_utf8(x);
            encode_utf8_decode_utf8(x);
        }
    }
    Some(text)
}

/// Decrypts a text made by `encrypt_string`, on texts that decrypt under
/// the passphrase. A text that encrypts a string under the passphrase,
/// whatever the salt, decrypts to that string.
pub fn decrypt_string(input: &str, passphrase: &str) -> (res: String)
    requires
        decrypted_text(input@, passphrase.spec_bytes()) is Some,
    ensures
        res@ == decrypted_text(input@, passphrase.spec_bytes())->0,
        valid_utf8(decrypted_bytes(input@, passphrase.spec_bytes())->0)
            ==> res@ == decode_utf8(decrypted_bytes(input@, passphrase.spec_bytes())->0),
        forall|x: Seq<char>, salt: Seq<u8>|
            salt.len() == 16 && input@ == #[trigger] encrypted_text(
                encode_utf8(x),
                passphrase.spec_bytes(),
                salt,
            ) ==> res@ == x,
{
    match try_decrypt_string(input, passphrase) {
        Some(text) => text,
        None => String::new(),
    }
}

} // verus!
