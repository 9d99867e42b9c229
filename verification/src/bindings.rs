//! The calls into outside crates, and into the parts of std that vstd does
//! not specify. Verus believes the contracts in this file without proof;
//! each doc comment says what is claimed of the outside function.
use vstd::prelude::*;
use vstd::string::StringSliceAdditionalSpecFns;
use vstd::utf8::{decode_utf8, valid_utf8};

use chrono::{Datelike, Timelike};
use crypto::aessafe::{AesSafe256Decryptor, AesSafe256Encryptor};
use crypto::blockmodes::{CbcDecryptor, CbcEncryptor, NoPadding};
use crypto::buffer::{RefReadBuffer, RefWriteBuffer};
use crypto::hmac::Hmac;
use crypto::sha2::Sha256;
use crypto::symmetriccipher::{Decryptor, Encryptor};
use hex::FromHex;
use rand::seq::SliceRandom;
use rand::RngCore;

use crate::functions::{base64_text, has_utf8_bom, hex_decoded, valid_reading, ClockReading};

verus! {

/// What `String::from_utf8_lossy` makes of the given bytes.
pub uninterp spec fn utf8_lossy(bytes: Seq<u8>) -> Seq<char>;

/// `String::from_utf8_lossy`: the text of the bytes, each malformed
/// sequence replaced by U+FFFD. Claimed: the result is a function of the
/// bytes, and valid UTF-8 comes back as the text it encodes, as std
/// documents. What malformed input turns into is left unsaid.
#[verifier::external_body]
pub(crate) fn utf8_lossy_string(bytes: &[u8]) -> (s: String)
    ensures
        s@ == utf8_lossy(bytes@),
        valid_utf8(bytes@) ==> s@ == decode_utf8(bytes@),
{
    String::from_utf8_lossy(bytes).into_owned()
}

/// What `base64::decode` makes of the given text.
pub uninterp spec fn base64_decoded(text: Seq<char>) -> Option<Seq<u8>>;

/// `base64::encode`: the standard, padded Base64 encoding of the bytes.
/// Claimed: the result is `base64_text` of the bytes, the encoding of RFC
/// 4648 that the crate documents, and `base64::decode` gives the bytes
/// back from it.
#[verifier::external_body]
pub(crate) fn base64_encode(bytes: &[u8]) -> (s: String)
    ensures
        s@ == base64_text(bytes@),
        base64_decoded(s@) == Some(bytes@),
{
    base64::encode(bytes)
}

/// `base64::decode`: the bytes of a standard Base64 text, or an error.
/// Claimed: the outcome is a function of the text, and the encoding of any
/// bytes decodes to those bytes. Which other texts decode, and to what, is
/// left unsaid.
#[verifier::external_body]
pub(crate) fn base64_decode(text: &str) -> (r: Option<Vec<u8>>)
    ensures
        match r {
            Some(v) => base64_decoded(text@) == Some(v@),
            None => base64_decoded(text@) is None,
        },
        forall|b: Seq<u8>| #[trigger] base64_text(b) == text@ ==> r is Some && r->0@ == b,
{
    match base64::decode(text) {
        Ok(v) => Some(v),
        Err(_) => None,
    }
}

/// `<Vec<u8> as hex::FromHex>::from_hex`: the bytes written by a text of
/// hexadecimal digit pairs. Claimed: the outcome is `hex_decoded` of the
/// text's bytes, as the crate's source shows (an odd length or a byte that
/// is not a digit of either case is an error).
#[verifier::external_body]
pub(crate) fn hex_decode(text: &str) -> (r: Option<Vec<u8>>)
    ensures
        match r {
            Some(v) => hex_decoded(text.spec_bytes()) == Some(v@),
            None => hex_decoded(text.spec_bytes()) is None,
        },
{
    match Vec::<u8>::from_hex(text) {
        Ok(v) => Some(v),
        Err(_) => None,
    }
}

/// What `encoding_rs::UTF_8.decode` makes of the given bytes.
pub uninterp spec fn sniffed_utf8_decoding(bytes: Seq<u8>) -> Seq<char>;

/// `encoding_rs::UTF_8.decode`: decoding with byte order mark sniffing and
/// malformed sequences replaced by U+FFFD. Claimed: the result is a
/// function of the bytes, and valid UTF-8 comes back as the text it encodes
/// without a leading UTF-8 byte order mark (valid UTF-8 never starts with
/// the UTF-16 marks). What malformed input turns into is left unsaid.
#[verifier::external_body]
pub(crate) fn decode_with_bom_sniffing(bytes: &[u8]) -> (s: String)
    ensures
        s@ == sniffed_utf8_decoding(bytes@),
        valid_utf8(bytes@) ==> s@ == decode_utf8(
            if has_utf8_bom(bytes@) {
                bytes@.skip(3)
            } else {
                bytes@
            },
        ),
{
    encoding_rs::UTF_8.decode(bytes).0.into_owned()
}

/// `SliceRandom::shuffle` with `rand::thread_rng()`: puts the entries in a
/// random order. Claimed: the entries are permuted. Which order comes out
/// rests on chance and is left unsaid.
#[verifier::external_body]
pub(crate) fn shuffle_indices(order: &mut Vec<usize>)
    ensures
        final(order)@.to_multiset() == old(order)@.to_multiset(),
{
    order.shuffle(&mut rand::thread_rng());
}

/// `RngCore::fill_bytes` on `rand::thread_rng()`: `n` random bytes.
/// Claimed: the length. The bytes rest on chance and are left unsaid.
#[verifier::external_body]
pub(crate) fn random_bytes(n: usize) -> (r: Vec<u8>)
    ensures
        r@.len() == n,
{
    let mut r = vec![0u8; n];
    rand::thread_rng().fill_bytes(&mut r);
    r
}

/// The current UTC time: `SystemTime::now()` as a duration since the Unix
/// epoch, turned into a date by `chrono::DateTime::from_timestamp` and read
/// through `Datelike`, `Timelike` and `timestamp_subsec_millis`. `None` when
/// the system clock reads before the epoch or past what chrono can date.
/// Claimed of a reading: the ranges that chrono documents and its source
/// fixes (months 1 to 12, days 1 to 31, hours below 24, minutes and seconds
/// below 60, milliseconds below 2000 because of leap seconds, years within
/// chrono's date range). Which time it reads, and whether there is one, is
/// left unsaid.
#[verifier::external_body]
pub(crate) fn clock_now() -> (r: Option<ClockReading>)
    ensures
        r matches Some(c) ==> valid_reading(c),
{
    let since = std::time::SystemTime::now().duration_since(std::time::UNIX_EPOCH).ok()?;
    let secs = i64::try_from(since.as_secs()).ok()?;
    let t = chrono::DateTime::from_timestamp(secs, since.subsec_nanos())?;
    Some(ClockReading {
        year: t.year(), month: t.month(), day: t.day(), hour: t.hour(),
        minute: t.minute(), second: t.second(), millis: t.timestamp_subsec_millis(),
    })
}

/// The key that `crypto::pbkdf2::pbkdf2` derives with HMAC-SHA256.
pub uninterp spec fn pbkdf2_sha256_key(
    passphrase: Seq<u8>,
    salt: Seq<u8>,
    rounds: u32,
    key_len: usize,
) -> Seq<u8>;

/// `crypto::pbkdf2::pbkdf2` over `Hmac<Sha256>` keyed with the passphrase.
/// Claimed: the key is a function of the arguments and has the length asked
/// for. The source asserts that `rounds` is positive and panics past 2^32 - 1
/// blocks of 32 bytes, which `requires` leaves out.
#[verifier::external_body]
pub(crate) fn pbkdf2_hmac_sha256(passphrase: &[u8], salt: &[u8], rounds: u32, key_len: usize) -> (key: Vec<u8>)
    requires
        rounds > 0,
        key_len <= 32 * 0xffff_fffe,
    ensures
        key@ == pbkdf2_sha256_key(passphrase@, salt@, rounds, key_len),
        key@.len() == key_len,
{
    let mut mac = Hmac::new(Sha256::new(), passphrase);
    let mut key = vec![0u8; key_len];
    crypto::pbkdf2::pbkdf2(&mut mac, salt, rounds, &mut key);
    key
}

/// What AES-256 in CBC mode, without padding, makes of whole blocks.
pub uninterp spec fn aes256_cbc_encryption(key: Seq<u8>, iv: Seq<u8>, data: Seq<u8>) -> Seq<u8>;

/// What AES-256 in CBC mode, without padding, decrypts from the data.
pub uninterp spec fn aes256_cbc_decryption(key: Seq<u8>, iv: Seq<u8>, data: Seq<u8>) -> Option<
    Seq<u8>,
>;

/// `CbcEncryptor` over `AesSafe256Encryptor` with `NoPadding`, run once
/// over all the data. Claimed: the result is a function of the arguments,
/// as long as the data, and `CbcDecryptor` with the same key and vector
/// gives the data back from it, the defining property of the cipher. The
/// key must be 32 bytes (the key schedule panics otherwise) and the data
/// whole blocks of 16 bytes.
#[verifier::external_body]
pub(crate) fn aes256_cbc_encrypt(key: &[u8], iv: &[u8], data: &[u8]) -> (out: Vec<u8>)
    requires
        key@.len() == 32,
        iv@.len() == 16,
        data@.len() % 16 == 0,
    ensures
        out@ == aes256_cbc_encryption(key@, iv@, data@),
        out@.len() == data@.len(),
        aes256_cbc_decryption(key@, iv@, out@) == Some(data@),
{
    let mut enc = CbcEncryptor::new(AesSafe256Encryptor::new(key), NoPadding, iv.to_vec());
    let mut out = vec![0u8; data.len()];
    let _ = enc.encrypt(&mut RefReadBuffer::new(data), &mut RefWriteBuffer::new(&mut out), true);
    out
}

/// `CbcDecryptor` over `AesSafe256Decryptor` with `NoPadding`, run once
/// over all the data. Claimed: the outcome is a function of the arguments;
/// it succeeds exactly on whole blocks (the source reports `InvalidLength`
/// otherwise) with a result as long as the data; and it gives back what the
/// encryption with the same key and vector was given, the defining property
/// of the cipher.
#[verifier::external_body]
pub(crate) fn aes256_cbc_decrypt(key: &[u8], iv: &[u8], data: &[u8]) -> (out: Option<Vec<u8>>)
    requires
        key@.len() == 32,
        iv@.len() == 16,
    ensures
        match out {
            Some(v) => aes256_cbc_decryption(key@, iv@, data@) == Some(v@),
            None => aes256_cbc_decryption(key@, iv@, data@) is None,
        },
        out is Some <==> data@.len() % 16 == 0,
        out matches Some(v) ==> v@.len() == data@.len(),
        forall|plain: Seq<u8>|
            plain.len() % 16 == 0 && #[trigger] aes256_cbc_encryption(key@, iv@, plain) == data@
                ==> out is Some && out->0@ == plain,
{
    let mut dec = CbcDecryptor::new(AesSafe256Decryptor::new(key), NoPadding, iv.to_vec());
    let mut out = vec![0u8; data.len()];
    let res = dec.decrypt(&mut RefReadBuffer::new(data), &mut RefWriteBuffer::new(&mut out), true);
    match res {
        Ok(_) => Some(out),
        Err(_) => None,
    }
}

} // verus!
