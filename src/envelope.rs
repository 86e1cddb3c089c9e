//! The envelope in which every payload travels to and from the appliance:
//! base64 of a 16-byte IV followed by the AES-256-CBC/PKCS#7 ciphertext.

use vstd::prelude::*;
use block_modes::BlockMode;
use vstd::slice::slice_subrange;
use crate::error::Error;

verus! {

/// Length of the AES-256 key.
pub const KEY_LEN: usize = 32;

/// Length of the CBC initialisation vector, and of one cipher block.
pub const IV_LEN: usize = 16;

/// What `base64::encode` writes for the given bytes.
pub uninterp spec fn base64_text(b: Seq<u8>) -> Seq<char>;

/// What `base64::decode` reads from the given text, if it is valid base64.
pub uninterp spec fn base64_bytes(s: Seq<char>) -> Option<Seq<u8>>;

/// The AES-256-CBC ciphertext, PKCS#7-padded, of `plain` under `key` and `iv`.
pub uninterp spec fn cbc_sealed(key: Seq<u8>, iv: Seq<u8>, plain: Seq<u8>) -> Seq<u8>;

/// The plaintext that AES-256-CBC decryption and PKCS#7 unpadding recover
/// from `cipher`, if the padding is well formed.
pub uninterp spec fn cbc_opened(key: Seq<u8>, iv: Seq<u8>, cipher: Seq<u8>) -> Option<Seq<u8>>;

/// Relies on `base64::encode` (standard alphabet, with padding), and on
/// `base64::decode` reading back exactly the bytes it wrote.
#[verifier::external_body]
fn base64_encode(b: &Vec<u8>) -> (r: String)
    ensures
        r@ == base64_text(b@),
        base64_bytes(r@) == Some(b@),
{
    base64::encode(b)
}

/// Relies on `base64::decode`: the bytes of valid base64 text, or the
/// reason it is not valid.
#[verifier::external_body]
fn base64_decode(s: &str) -> (r: Result<Vec<u8>, base64::DecodeError>)
    ensures
        match r {
            Ok(b) => base64_bytes(s@) == Some(b@),
            Err(_) => base64_bytes(s@) is None,
        },
{
    base64::decode(s)
}

/// Relies on `BlockMode::encrypt_vec` of `Cbc<Aes256, Pkcs7>`: PKCS#7 adds
/// one to sixteen bytes, so the ciphertext is the plaintext rounded up to the
/// next whole block; and `decrypt_vec` with the same key and IV restores the
/// plaintext.
#[verifier::external_body]
fn cbc_encrypt(key: &Vec<u8>, iv: &Vec<u8>, plain: &Vec<u8>) -> (r: Vec<u8>)
    requires
        key@.len() == KEY_LEN,
        iv@.len() == IV_LEN,
    ensures
        r@ == cbc_sealed(key@, iv@, plain@),
        r@.len() == 16 * (plain@.len() / 16 + 1),
        cbc_opened(key@, iv@, r@) == Some(plain@),
{
    let cipher = block_modes::Cbc::<aes::Aes256, block_modes::block_padding::Pkcs7>::new_from_slices(key, iv).unwrap();
    cipher.encrypt_vec(plain)
}

/// Relies on `BlockMode::decrypt_vec` of `Cbc<Aes256, Pkcs7>`, which refuses
/// a ciphertext that is not a whole number of blocks or whose padding is
/// malformed.
#[verifier::external_body]
fn cbc_decrypt(key: &Vec<u8>, iv: &[u8], cipher: &[u8]) -> (r: Option<Vec<u8>>)
    requires
        key@.len() == KEY_LEN,
        iv@.len() == IV_LEN,
    ensures
        match r {
            Some(p) => cbc_opened(key@, iv@, cipher@) == Some(p@),
            None => cbc_opened(key@, iv@, cipher@) is None,
        },
        cipher@.len() % 16 != 0 ==> r is None,
{
    let mode = block_modes::Cbc::<aes::Aes256, block_modes::block_padding::Pkcs7>::new_from_slices(key, iv).unwrap();
    mode.decrypt_vec(cipher).ok()
}

/// Relies on `rand::random` for sixteen bytes from the thread-local
/// generator.
#[verifier::external_body]
fn random_iv() -> (r: Vec<u8>)
    ensures
        r@.len() == IV_LEN,
{
    rand::random::<[u8; 16]>().to_vec()
}

/// The key for a shared secret: the secret's first 32 bytes, right-padded
/// with the ASCII digit `0`.
pub open spec fn derived_key(secret: Seq<u8>) -> Seq<u8> {
    Seq::new(KEY_LEN as nat, |i: int| if i < secret.len() { secret[i] } else { 48u8 })
}

/// The envelope text for `plain` sealed with `key` and `iv`.
pub open spec fn envelope_of(key: Seq<u8>, iv: Seq<u8>, plain: Seq<u8>) -> Seq<char> {
    base64_text(iv + cbc_sealed(key, iv, plain))
}

/// The plaintext inside an envelope, if it opens with `key`.
pub open spec fn opened(key: Seq<u8>, text: Seq<char>) -> Option<Seq<u8>> {
    match base64_bytes(text) {
        None => None,
        Some(b) => if b.len() < IV_LEN {
            None
        } else {
            cbc_opened(key, b.take(IV_LEN as int), b.skip(IV_LEN as int))
        },
    }
}

/// Derives the cipher key from the shared secret.
pub fn derive_key(secret: &[u8]) -> (r: Vec<u8>)
    ensures
        r@ == derived_key(secret@),
{
    let mut key: Vec<u8> = Vec::new();
    let mut i: usize = 0;
    while i < KEY_LEN
        invariant
            i <= KEY_LEN,
            key@ == derived_key(secret@).take(i as int),
        decreases KEY_LEN - i,
    {
        if i < secret.len() {
            key.push(secret[i]);
        } else {
            key.push(48u8);
        }
        i = i + 1;
        assert(key@ =~= derived_key(secret@).take(i as int));
    }
    assert(key@ =~= derived_key(secret@));
    key
}

/// Padding a short secret with ASCII zeros up to the key length, or cutting
/// a long one down to it, does not change the key.
pub proof fn lemma_key_padding(secret: Seq<u8>)
    ensures
        derived_key(secret).len() == KEY_LEN,
        secret.len() <= KEY_LEN ==> derived_key(secret) == derived_key(
            secret + Seq::new((KEY_LEN - secret.len()) as nat, |i: int| 48u8),
        ),
        secret.len() > KEY_LEN ==> derived_key(secret) == secret.take(KEY_LEN as int),
        secret.len() > KEY_LEN ==> derived_key(secret) == derived_key(
            secret.take(KEY_LEN as int),
        ),
{
    if secret.len() <= KEY_LEN {
        let padded = secret + Seq::new((KEY_LEN - secret.len()) as nat, |i: int| 48u8);
        assert(derived_key(secret) =~= derived_key(padded));
    } else {
        assert(derived_key(secret) =~= secret.take(KEY_LEN as int));
        assert(derived_key(secret) =~= derived_key(secret.take(KEY_LEN as int)));
    }
}

/// Seals `plain` under `key` with the given IV.
pub fn seal(key: &Vec<u8>, iv: &Vec<u8>, plain: &Vec<u8>) -> (r: String)
    requires
        key@.len() == KEY_LEN,
        iv@.len() == IV_LEN,
    ensures
        r@ == envelope_of(key@, iv@, plain@),
        base64_bytes(r@) == Some(iv@ + cbc_sealed(key@, iv@, plain@)),
        cbc_sealed(key@, iv@, plain@).len() == 16 * (plain@.len() / 16 + 1),
        opened(key@, r@) == Some(plain@),
{
    let sealed = cbc_encrypt(key, iv, plain);
    let mut bytes: Vec<u8> = Vec::new();
    let mut i: usize = 0;
    while i < iv.len()
        invariant
            i <= iv@.len(),
            bytes@ == iv@.take(i as int),
        decreases iv@.len() - i,
    {
        bytes.push(iv[i]);
        i = i + 1;
        assert(bytes@ =~= iv@.take(i as int));
    }
    let mut j: usize = 0;
    while j < sealed.len()
        invariant
            j <= sealed@.len(),
            bytes@ == iv@ + sealed@.take(j as int),
        decreases sealed@.len() - j,
    {
        bytes.push(sealed[j]);
        j = j + 1;
        assert(bytes@ =~= iv@ + sealed@.take(j as int));
    }
    assert(bytes@ =~= iv@ + sealed@);
    let r = base64_encode(&bytes);
    assert(bytes@.take(IV_LEN as int) =~= iv@);
    assert(bytes@.skip(IV_LEN as int) =~= sealed@);
    r
}

/// Seals `plain` under `key` with a fresh random IV. Whatever IV was drawn,
/// opening the result with the same key gives `plain` back.
pub fn encrypt(key: &Vec<u8>, plain: &Vec<u8>) -> (r: String)
    requires
        key@.len() == KEY_LEN,
    ensures
        exists|iv: Seq<u8>|
            iv.len() == IV_LEN && r@ == envelope_of(key@, iv, plain@) && base64_bytes(r@) == Some(
                iv + cbc_sealed(key@, iv, plain@),
            ) && cbc_sealed(key@, iv, plain@).len() == 16 * (plain@.len() / 16 + 1),
        opened(key@, r@) == Some(plain@),
{
    let iv = random_iv();
    seal(key, &iv, plain)
}

/// Opens an envelope: decodes the base64 text, takes the first sixteen bytes
/// as the IV and decrypts the rest.
pub fn decrypt(key: &Vec<u8>, text: &str) -> (r: Result<Vec<u8>, Error>)
    requires
        key@.len() == KEY_LEN,
    ensures
        match r {
            Ok(p) => opened(key@, text@) == Some(p@),
            Err(Error::Base64Error(_)) => base64_bytes(text@) is None,
            Err(Error::DecryptionError) => base64_bytes(text@) is Some && opened(
                key@,
                text@,
            ) is None,
            Err(_) => false,
        },
{
    match base64_decode(text) {
        Err(e) => Err(Error::Base64Error(e)),
        Ok(bytes) => {
            if bytes.len() < IV_LEN {
                Err(Error::DecryptionError)
            } else {
                let iv = slice_subrange(bytes.as_slice(), 0, IV_LEN);
                let body = slice_subrange(bytes.as_slice(), IV_LEN, bytes.len());
                match cbc_decrypt(key, iv, body) {
                    Some(p) => Ok(p),
                    None => Err(Error::DecryptionError),
                }
            }
        },
    }
}

} // verus!
