//! Authenticated encryption of environment files: a symmetric key is
//! derived from the project key string, and whole files are sealed into
//! a fixed binary envelope `MAGIC ‖ NONCE ‖ CIPHERTEXT‖TAG`.

use vstd::prelude::*;

use crate::bytes::trim;

verus! {

/// Envelope magic length in bytes.
pub const MAGIC_LEN: usize = 5;

/// Nonce length in bytes.
pub const NONCE_LEN: usize = 24;

/// Authentication tag length in bytes.
pub const TAG_LEN: usize = 16;

/// Derived key length in bytes.
pub const KEY_LEN: usize = 32;

/// Least length of a valid envelope: magic, nonce and tag.
pub const MIN_ENVELOPE_LEN: usize = 45;

/// The cipher's message limit in bytes: sealing refuses a plaintext at
/// or above it, and succeeds below it.
pub const MAX_PLAINTEXT_LEN: u64 = 274877906880;

/// The envelope magic: `EENV1` in ASCII bytes.
pub open spec fn spec_magic() -> Seq<u8> {
    seq![69u8, 69u8, 78u8, 86u8, 49u8]
}

/// The envelope magic as a vector.
pub fn magic_bytes() -> (r: Vec<u8>)
    ensures
        r@ == spec_magic(),
{
    let mut r: Vec<u8> = Vec::new();
    r.push(69);
    r.push(69);
    r.push(78);
    r.push(86);
    r.push(49);
    assert(r@ =~= spec_magic());
    r
}

/// Everything that can go wrong while keying, sealing or opening.
#[derive(Clone, Copy, Debug, PartialEq, Eq, Structural)]
pub enum CryptoError {
    /// The key string is empty after trimming.
    EmptyKey,
    /// The cipher backend refused to seal.
    EncryptFailed,
    /// The artifact is shorter than any valid envelope.
    TooShort,
    /// The artifact does not open with the envelope magic.
    BadMagic,
    /// The authentication tag does not match: wrong key or corrupted
    /// data.
    AuthFailed,
}

/// The BLAKE3 digest of a byte sequence.
pub uninterp spec fn blake3_of(data: Seq<u8>) -> Seq<u8>;

/// Relies on blake3::hash: a 32-byte digest that depends on the input
/// bytes alone.
#[verifier::external_body]
fn blake3_digest(data: &[u8]) -> (r: Vec<u8>)
    ensures
        r@ == blake3_of(data@),
        r@.len() == 32,
{
    blake3::hash(data).as_bytes().to_vec()
}

/// The XChaCha20-Poly1305 sealing of a plaintext under a 32-byte key and
/// a 24-byte nonce: the ciphertext with the 16-byte tag appended.
pub uninterp spec fn xchacha_seal(key: Seq<u8>, nonce: Seq<u8>, pt: Seq<u8>) -> Seq<u8>;

/// The XChaCha20-Poly1305 opening of a sealed message: the plaintext
/// when the tag verifies, nothing otherwise.
pub uninterp spec fn xchacha_open(key: Seq<u8>, nonce: Seq<u8>, ct: Seq<u8>) -> Option<Seq<u8>>;

/// Relies on chacha20poly1305's XChaCha20Poly1305: `encrypt` is a
/// deterministic function of key, nonce and plaintext, returns the
/// ciphertext with the 16-byte tag appended, `decrypt` recovers exactly
/// the sealed plaintext, and sealing succeeds exactly below the
/// cipher's message limit.
#[verifier::external_body]
fn aead_encrypt(key: &[u8], nonce: &[u8], pt: &[u8]) -> (r: Option<Vec<u8>>)
    requires
        key@.len() == 32,
        nonce@.len() == 24,
    ensures
        (r is Some) == (pt@.len() < MAX_PLAINTEXT_LEN),
        r matches Some(c) ==> c@ == xchacha_seal(key@, nonce@, pt@) && c@.len() == pt@.len() + 16
            && xchacha_open(key@, nonce@, c@) == Option::Some(pt@),
{
    let cipher = <chacha20poly1305::XChaCha20Poly1305 as chacha20poly1305::KeyInit>::new(
        chacha20poly1305::Key::from_slice(key),
    );
    let n = chacha20poly1305::XNonce::from_slice(nonce);
    match chacha20poly1305::aead::Aead::encrypt(&cipher, n, pt) {
        Ok(v) => Some(v),
        Err(_) => None,
    }
}

/// Relies on chacha20poly1305's XChaCha20Poly1305: `decrypt` succeeds
/// exactly when the tag verifies, returns the sealed plaintext, and a
/// message that opens is the sealing of the plaintext it opens to.
#[verifier::external_body]
fn aead_decrypt(key: &[u8], nonce: &[u8], ct: &[u8]) -> (r: Option<Vec<u8>>)
    requires
        key@.len() == 32,
        nonce@.len() == 24,
    ensures
        (r is Some) == (xchacha_open(key@, nonce@, ct@) is Some),
        r matches Some(p) ==> Option::Some(p@) == xchacha_open(key@, nonce@, ct@) && ct@
            == xchacha_seal(key@, nonce@, p@),
{
    let cipher = <chacha20poly1305::XChaCha20Poly1305 as chacha20poly1305::KeyInit>::new(
        chacha20poly1305::Key::from_slice(key),
    );
    let n = chacha20poly1305::XNonce::from_slice(nonce);
    match chacha20poly1305::aead::Aead::decrypt(&cipher, n, ct) {
        Ok(v) => Some(v),
        Err(_) => None,
    }
}

/// Relies on rand::rng and Rng::random: 24 bytes drawn from the thread
/// generator; nothing is promised of their values.
#[verifier::external_body]
fn random_nonce_bytes() -> (r: Vec<u8>)
    ensures
        r@.len() == 24,
{
    let b: [u8; 24] = rand::Rng::random(&mut rand::rng());
    b.to_vec()
}

/// A byte is an ASCII letter or digit.
pub open spec fn is_alnum(b: u8) -> bool {
    (48 <= b && b <= 57) || (65 <= b && b <= 90) || (97 <= b && b <= 122)
}

/// Relies on rand's Alphanumeric distribution: every sampled byte is an
/// ASCII letter or digit; nothing else is promised of the draw.
#[verifier::external_body]
pub fn generate_key() -> (r: Vec<u8>)
    ensures
        r@.len() == 44,
        forall|i: int| 0 <= i < r@.len() ==> is_alnum(#[trigger] r@[i]),
{
    rand::Rng::sample_iter(rand::rng(), &rand::distr::Alphanumeric).take(44).collect()
}

/// Derive the 256-bit symmetric key from a project key string: its
/// BLAKE3 digest.  A key that trims to nothing is rejected before any
/// use.
pub fn derive_key(key_str: &[u8]) -> (r: Result<Vec<u8>, CryptoError>)
    ensures
        (r is Ok) == (trim(key_str@).len() > 0),
        r matches Ok(k) ==> k@ == blake3_of(key_str@) && k@.len() == 32,
        r matches Err(e) ==> e == CryptoError::EmptyKey,
{
    let t = crate::bytes::trim_of(key_str);
    if t.len() == 0 {
        Result::Err(CryptoError::EmptyKey)
    } else {
        Result::Ok(blake3_digest(key_str))
    }
}

/// The full envelope around a sealed message.
pub open spec fn spec_envelope(nonce: Seq<u8>, ct: Seq<u8>) -> Seq<u8> {
    spec_magic() + nonce + ct
}

/// A byte sequence has the shape of an envelope: long enough and opening
/// with the magic.
pub open spec fn envelope_ok(data: Seq<u8>) -> bool {
    data.len() >= 45 && data.subrange(0, 5) == spec_magic()
}

/// The nonce field of an envelope.
pub open spec fn nonce_of(data: Seq<u8>) -> Seq<u8> {
    data.subrange(5, 29)
}

/// The ciphertext-and-tag field of an envelope.
pub open spec fn ct_of(data: Seq<u8>) -> Seq<u8> {
    data.subrange(29, data.len() as int)
}

/// What decrypting an artifact under a key yields: the sealed plaintext
/// when the shape is right and the tag verifies, nothing otherwise.
pub open spec fn spec_decrypt(key: Seq<u8>, data: Seq<u8>) -> Option<Seq<u8>> {
    if envelope_ok(data) {
        xchacha_open(key, nonce_of(data), ct_of(data))
    } else {
        Option::None
    }
}

/// Seal a plaintext into an envelope under a derived key and a fresh
/// nonce.  Round trip: decrypting the returned artifact under the same
/// key yields the plaintext back.
pub fn encrypt_env_bytes(key: &[u8], nonce: &[u8], plaintext: &[u8]) -> (r: Result<
    Vec<u8>,
    CryptoError,
>)
    requires
        key@.len() == 32,
        nonce@.len() == 24,
    ensures
        (r is Ok) == (plaintext@.len() < MAX_PLAINTEXT_LEN),
        r matches Ok(art) ==> art@ == spec_envelope(nonce@, xchacha_seal(key@, nonce@, plaintext@))
            && art@.len() == plaintext@.len() + 45 && spec_decrypt(key@, art@) == Option::Some(
            plaintext@,
        ),
        r matches Err(e) ==> e == CryptoError::EncryptFailed,
{
    match aead_encrypt(key, nonce, plaintext) {
        Option::Some(mut sealed) => {
            let mut art = magic_bytes();
            let mut nv = vstd::slice::slice_to_vec(nonce);
            art.append(&mut nv);
            art.append(&mut sealed);
            proof {
                let a = art@;
                assert(a =~= spec_envelope(nonce@, xchacha_seal(key@, nonce@, plaintext@)));
                assert(a.subrange(0, 5) =~= spec_magic());
                assert(nonce_of(a) =~= nonce@);
                assert(ct_of(a) =~= xchacha_seal(key@, nonce@, plaintext@));
            }
            Result::Ok(art)
        },
        Option::None => Result::Err(CryptoError::EncryptFailed),
    }
}

/// Encrypt with a nonce drawn fresh from the system generator; the
/// artifact decrypts back to the plaintext under the same key, whatever
/// nonce was drawn.
pub fn encrypt_env_bytes_fresh(key: &[u8], plaintext: &[u8]) -> (r: Result<Vec<u8>, CryptoError>)
    requires
        key@.len() == 32,
    ensures
        (r is Ok) == (plaintext@.len() < MAX_PLAINTEXT_LEN),
        r matches Ok(art) ==> spec_decrypt(key@, art@) == Option::Some(plaintext@) && art@.len()
            == plaintext@.len() + 45,
        r matches Err(e) ==> e == CryptoError::EncryptFailed,
{
    let nonce = random_nonce_bytes();
    encrypt_env_bytes(key, nonce.as_slice(), plaintext)
}

/// Open an envelope under a derived key.  Success exactly when the shape
/// is right and the tag verifies; the artifact is then precisely the
/// envelope that sealing the returned plaintext with its nonce would
/// produce — never a partial or altered output.
pub fn decrypt_env_bytes(key: &[u8], data: &[u8]) -> (r: Result<Vec<u8>, CryptoError>)
    requires
        key@.len() == 32,
    ensures
        (r is Ok) == (spec_decrypt(key@, data@) is Some),
        r matches Ok(p) ==> Option::Some(p@) == spec_decrypt(key@, data@) && data@ == spec_envelope(
            nonce_of(data@),
            xchacha_seal(key@, nonce_of(data@), p@),
        ),
        r matches Err(e) ==> ((e == CryptoError::TooShort) <==> data@.len() < 45) && ((e
            == CryptoError::BadMagic) <==> (data@.len() >= 45 && data@.subrange(0, 5)
            != spec_magic())) && ((e == CryptoError::AuthFailed) <==> (envelope_ok(data@)
            && xchacha_open(key@, nonce_of(data@), ct_of(data@)) is None)),
{
    if data.len() < MIN_ENVELOPE_LEN {
        return Result::Err(CryptoError::TooShort);
    }
    let magic = magic_bytes();
    let head = vstd::slice::slice_subrange(data, 0, MAGIC_LEN);
    assert(head@ =~= data@.subrange(0, 5));
    if !crate::bytes::bytes_eq(head, magic.as_slice()) {
        return Result::Err(CryptoError::BadMagic);
    }
    let nonce = vstd::slice::slice_subrange(data, MAGIC_LEN, MAGIC_LEN + NONCE_LEN);
    assert(nonce@ =~= nonce_of(data@));
    let ct = vstd::slice::slice_subrange(data, MAGIC_LEN + NONCE_LEN, data.len());
    assert(ct@ =~= ct_of(data@));
    match aead_decrypt(key, nonce, ct) {
        Option::Some(p) => {
            proof {
                assert(data@ =~= spec_envelope(nonce_of(data@), ct_of(data@)));
            }
            Result::Ok(p)
        },
        Option::None => Result::Err(CryptoError::AuthFailed),
    }
}

/// Round trip, end to end: for every plaintext below the cipher's
/// message limit and every key string that trims to something,
/// decrypting what encryption produced under the same derived key gives
/// the plaintext back, byte for byte; and only those inputs succeed.
pub fn encrypt_then_decrypt(key_str: &[u8], plaintext: &[u8]) -> (r: Option<Vec<u8>>)
    ensures
        (r is Some) == (trim(key_str@).len() > 0 && plaintext@.len() < MAX_PLAINTEXT_LEN),
        r matches Some(p) ==> p@ == plaintext@,
{
    match derive_key(key_str) {
        Result::Err(_) => Option::None,
        Result::Ok(key) => match encrypt_env_bytes_fresh(key.as_slice(), plaintext) {
            Result::Err(_) => Option::None,
            Result::Ok(art) => match decrypt_env_bytes(key.as_slice(), art.as_slice()) {
                Result::Err(_) => Option::None,
                Result::Ok(p) => Option::Some(p),
            },
        },
    }
}

} // verus!
