//! Encryption of contents at rest with AES-256-GCM.

use aes_gcm::aead::rand_core::RngCore;
use aes_gcm::aead::{Aead, OsRng};
use aes_gcm::KeyInit;
use vstd::prelude::*;
use crate::digest::{sha256, sha_256};
use crate::text::{append_bytes, bytes_between};

verus! {

/// An encryption key.
#[derive(Clone, Copy)]
pub struct Dek(pub [u8; 32]);

/// Why contents could not be encrypted or decrypted.
#[derive(Clone, Copy, Debug, PartialEq, Eq, Structural)]
pub enum CryptoError {
    /// More bytes than one nonce may be used for.
    TooLarge,
    /// Fewer bytes than a nonce has.
    TooShort,
    /// The bytes were not encrypted with the key, or were changed since.
    Failed,
}

/// The most bytes that are encrypted at once: blocks of 16 bytes for each of 32
/// bits of counter.
pub const MAX_PLAINTEXT: u64 = 0x10_0000_0000;

/// The AES-256-GCM ciphertext of a plaintext, with its tag.
pub uninterp spec fn aes_seal(key: Seq<u8>, nonce: Seq<u8>, data: Seq<u8>) -> Seq<u8>;

/// The plaintext of an AES-256-GCM ciphertext with its tag, if the tag fits.
pub uninterp spec fn aes_open(key: Seq<u8>, nonce: Seq<u8>, sealed: Seq<u8>) -> Option<Seq<u8>>;

/// `OsRng::fill_bytes`: twelve bytes, which nothing is said of.
#[verifier::external_body]
fn random_nonce() -> (r: Vec<u8>)
    ensures
        r@.len() == 12,
{
    let mut bytes = [0u8; 12];
    OsRng.fill_bytes(&mut bytes);
    bytes.to_vec()
}

/// `Aes256Gcm::encrypt`: the ciphertext is a function of the key, the nonce
/// and the data, is sixteen bytes longer, and opens to the data.
#[verifier::external_body]
fn seal(key: &[u8], nonce: &[u8], data: &[u8]) -> (r: Vec<u8>)
    requires
        key@.len() == 32,
        nonce@.len() == 12,
        data@.len() <= MAX_PLAINTEXT,
    ensures
        r@ == aes_seal(key@, nonce@, data@),
        r@.len() == data@.len() + 16,
        aes_open(key@, nonce@, r@) == Some(data@),
{
    let cipher = aes_gcm::Aes256Gcm::new_from_slice(key).unwrap();
    cipher.encrypt(aes_gcm::Nonce::from_slice(nonce), data).unwrap()
}

/// `Aes256Gcm::decrypt`: the plaintext is a function of the key, the nonce and
/// the ciphertext; there is none where the tag does not fit, or where there are
/// more bytes than can have been encrypted.
#[verifier::external_body]
fn open(key: &[u8], nonce: &[u8], sealed: &[u8]) -> (r: Option<Vec<u8>>)
    requires
        key@.len() == 32,
        nonce@.len() == 12,
    ensures
        match r {
            Some(data) => aes_open(key@, nonce@, sealed@) == Some(data@),
            None => aes_open(key@, nonce@, sealed@) is None,
        },
{
    let cipher = aes_gcm::Aes256Gcm::new_from_slice(key).unwrap();
    cipher.decrypt(aes_gcm::Nonce::from_slice(nonce), sealed).ok()
}

impl Dek {
    /// The key made of a master key and a salt: the SHA-256 digest of the two.
    pub fn from_tmk(tmk: &[u8; 32], salt: &[u8]) -> (r: Dek)
        ensures
            r.0@ == sha_256(tmk@ + salt@),
    {
        let mut both: Vec<u8> = Vec::new();
        append_bytes(&mut both, tmk.as_slice());
        append_bytes(&mut both, salt);
        assert(both@ =~= tmk@ + salt@);
        let d = sha256(both.as_slice());
        let mut key = [0u8;32];
        let mut i: usize = 0;
        while i < 32
            invariant
                i <= 32,
                d@.len() == 32,
                forall|j: int| 0 <= j < i ==> key@[j] == d@[j],
            decreases 32 - i,
        {
            key[i] = d[i];
            i = i + 1;
        }
        assert(key@ =~= d@);
        Dek(key)
    }
}

/// What decrypting comes to.
pub open spec fn decrypted(data: Seq<u8>, key: Seq<u8>) -> Result<Seq<u8>, CryptoError> {
    if data.len() < 12 {
        Err(CryptoError::TooShort)
    } else {
        match aes_open(key, data.take(12), data.skip(12)) {
            Some(plain) => Ok(plain),
            None => Err(CryptoError::Failed),
        }
    }
}

/// Encrypts with a nonce: the nonce, and behind it the ciphertext.
pub fn encrypt_with(data: &[u8], dek: &Dek, nonce: &Vec<u8>) -> (r: Result<Vec<u8>, CryptoError>)
    requires
        nonce@.len() == 12,
    ensures
        data@.len() > MAX_PLAINTEXT ==> r == Err::<Vec<u8>, CryptoError>(CryptoError::TooLarge),
        data@.len() <= MAX_PLAINTEXT ==> (r matches Ok(b) && b@ == nonce@ + aes_seal(
            dek.0@,
            nonce@,
            data@,
        ) && decrypted(b@, dek.0@) == Ok::<Seq<u8>, CryptoError>(data@)),
{
    if data.len() as u64 > MAX_PLAINTEXT {
        return Err(CryptoError::TooLarge);
    }
    let sealed = seal(dek.0.as_slice(), nonce.as_slice(), data);
    let mut out: Vec<u8> = Vec::new();
    append_bytes(&mut out, nonce.as_slice());
    append_bytes(&mut out, sealed.as_slice());
    proof {
        assert(out@ =~= nonce@ + sealed@);
        assert(out@.take(12) =~= nonce@);
        assert(out@.skip(12) =~= sealed@);
    }
    Ok(out)
}

/// Encrypts with a nonce drawn at random. What was encrypted is decrypted
/// again with the same key.
pub fn encrypt(data: &[u8], dek: &Dek) -> (r: Result<Vec<u8>, CryptoError>)
    ensures
        data@.len() > MAX_PLAINTEXT ==> r == Err::<Vec<u8>, CryptoError>(CryptoError::TooLarge),
        data@.len() <= MAX_PLAINTEXT ==> (r matches Ok(b) && decrypted(b@, dek.0@) == Ok::<
            Seq<u8>,
            CryptoError,
        >(data@) && b@.skip(12) == aes_seal(dek.0@, b@.take(12), data@)),
{
    let nonce = random_nonce();
    let r = encrypt_with(data, dek, &nonce);
    proof {
        if r is Ok {
            assert(r->Ok_0@.take(12) =~= nonce@);
            assert(r->Ok_0@.skip(12) =~= aes_seal(dek.0@, nonce@, data@));
        }
    }
    r
}

/// Decrypts a nonce and the ciphertext behind it.
pub fn decrypt(data: &[u8], dek: &Dek) -> (r: Result<Vec<u8>, CryptoError>)
    ensures
        match decrypted(data@, dek.0@) {
            Ok(plain) => r matches Ok(b) && b@ == plain,
            Err(e) => r == Err::<Vec<u8>, CryptoError>(e),
        },
{
    if data.len() < 12 {
        return Err(CryptoError::TooShort);
    }
    let nonce = bytes_between(data, 0, 12);
    let sealed = bytes_between(data, 12, data.len());
    proof {
        assert(nonce@ =~= data@.take(12));
        assert(sealed@ =~= data@.skip(12));
    }
    match open(dek.0.as_slice(), nonce.as_slice(), sealed.as_slice()) {
        Some(plain) => Ok(plain),
        None => Err(CryptoError::Failed),
    }
}

} // verus!
