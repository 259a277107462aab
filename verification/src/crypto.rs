//! Trusted bindings to the outside cryptographic and randomness crates
//! (`argon2`, `chacha20poly1305`, `base64`, `sha2`, `rand`).
//!
//! Each binding states what the crate's source shows. Base64 is defined here
//! as a spec function (RFC 4648); the Argon2id key, the ChaCha20-Poly1305
//! ciphertext and the SHA-256 digest are named results, left uninterpreted.
use chacha20poly1305::aead::{Aead, KeyInit};
use base64::Engine;
use sha2::Digest;
use rand::RngCore;
use vstd::prelude::*;

verus! {

// ───────────────────────── named results ─────────────────────────

/// The 32-byte Argon2id (version 0x13) hash of `password` under `salt`,
/// with memory cost `m_cost` KiB, `t_cost` passes and `p_cost` lanes.
pub uninterp spec fn argon2id_v13_key(
    m_cost: u32,
    t_cost: u32,
    p_cost: u32,
    password: Seq<u8>,
    salt: Seq<u8>,
) -> Seq<u8>;

/// The ChaCha20-Poly1305 (IETF) encryption of `plaintext` with empty associated
/// data: the ciphertext followed by the 16-byte tag.
pub uninterp spec fn chacha20poly1305_seal(key: Seq<u8>, nonce: Seq<u8>, plaintext: Seq<u8>) -> Seq<
    u8,
>;

/// The character of a 6-bit value in the standard Base64 alphabet
/// (`A`–`Z`, `a`–`z`, `0`–`9`, `+`, `/`).
pub open spec fn base64_digit(v: nat) -> char {
    if v < 26 {
        ((v + 65) as u8) as char
    } else if v < 52 {
        ((v + 71) as u8) as char
    } else if v < 62 {
        ((v - 4) as u8) as char
    } else if v == 62 {
        '+'
    } else {
        '/'
    }
}

/// The standard padded Base64 encoding of `bytes` (RFC 4648, section 4):
/// every group of three bytes becomes four characters of six bits each, and a
/// final group of one or two bytes is completed with `=`.
pub open spec fn base64_standard(bytes: Seq<u8>) -> Seq<char>
    decreases bytes.len(),
{
    if bytes.len() == 0 {
        Seq::empty()
    } else if bytes.len() == 1 {
        let b0 = bytes[0] as nat;
        seq![base64_digit(b0 / 4), base64_digit((b0 % 4) * 16), '=', '=']
    } else if bytes.len() == 2 {
        let (b0, b1) = (bytes[0] as nat, bytes[1] as nat);
        seq![
            base64_digit(b0 / 4),
            base64_digit((b0 % 4) * 16 + b1 / 16),
            base64_digit((b1 % 16) * 4),
            '=',
        ]
    } else {
        let (b0, b1, b2) = (bytes[0] as nat, bytes[1] as nat, bytes[2] as nat);
        seq![
            base64_digit(b0 / 4),
            base64_digit((b0 % 4) * 16 + b1 / 16),
            base64_digit((b1 % 16) * 4 + b2 / 64),
            base64_digit(b2 % 64),
        ] + base64_standard(bytes.skip(3))
    }
}

/// The SHA-256 digest of `data`.
pub uninterp spec fn sha256_digest(data: Seq<u8>) -> Seq<u8>;

// ───────────────────────── Argon2id ─────────────────────────

/// Why an Argon2id derivation was refused (the `argon2::Error` variants that
/// `hash_password_into` can return once the cost parameters are valid).
#[derive(Clone, Copy, Debug, PartialEq, Eq, Structural)]
pub enum KdfError {
    PasswordTooLong,
    SaltTooShort,
    SaltTooLong,
    /// Any other `argon2::Error`; the crate's source shows none arises with
    /// valid cost parameters and a 32-byte output.
    Other,
}

/// The cost parameters that `argon2::Params::new` accepts with a 32-byte output.
pub open spec fn argon2_params_valid(m_cost: u32, t_cost: u32, p_cost: u32) -> bool {
    &&& m_cost >= 8
    &&& m_cost >= 8 * p_cost
    &&& t_cost >= 1
    &&& 1 <= p_cost <= 0xff_ffff
}

/// The error `hash_password_into` returns for inputs of these lengths, if any.
pub open spec fn argon2_input_error(password_len: nat, salt_len: nat) -> Option<KdfError> {
    if password_len > 0xffff_ffff {
        Some(KdfError::PasswordTooLong)
    } else if salt_len < 8 {
        Some(KdfError::SaltTooShort)
    } else if salt_len > 0xffff_ffff {
        Some(KdfError::SaltTooLong)
    } else {
        None
    }
}

/// Argon2id v0x13 into a 32-byte key: `argon2::Params::new(m, t, p, Some(32))`,
/// `argon2::Argon2::new(Argon2id, V0x13, params)` and `hash_password_into`.
/// Trusted: it fails exactly when the password or salt length is out of the
/// crate's bounds (`MAX_PWD_LEN`, `MIN_SALT_LEN`, `MAX_SALT_LEN`), with the
/// matching error, and otherwise returns the named key.
#[verifier::external_body]
pub(crate) fn argon2id_hash(
    m_cost: u32,
    t_cost: u32,
    p_cost: u32,
    password: &[u8],
    salt: &[u8],
) -> (r: Result<[u8; 32], KdfError>)
    requires
        argon2_params_valid(m_cost, t_cost, p_cost),
    ensures
        match r {
            Ok(key) => argon2_input_error(password@.len(), salt@.len()) is None && key@
                == argon2id_v13_key(m_cost, t_cost, p_cost, password@, salt@),
            Err(e) => argon2_input_error(password@.len(), salt@.len()) == Some(e),
        },
{
    let params = argon2::Params::new(m_cost, t_cost, p_cost, Some(32)).unwrap();
    let mut key = [0u8;32];
    let ctx = argon2::Argon2::new(argon2::Algorithm::Argon2id, argon2::Version::V0x13, params);
    match ctx.hash_password_into(password, salt, &mut key) {
        Ok(()) => Ok(key),
        Err(argon2::Error::PwdTooLong) => Err(KdfError::PasswordTooLong),
        Err(argon2::Error::SaltTooShort) => Err(KdfError::SaltTooShort),
        Err(argon2::Error::SaltTooLong) => Err(KdfError::SaltTooLong),
        Err(_) => Err(KdfError::Other),
    }
}

// ───────────────────────── ChaCha20-Poly1305 ─────────────────────────

/// The `aead::Error` of the AEAD crates: a unit error.
#[derive(Clone, Copy, Debug, PartialEq, Eq, Structural)]
pub struct AeadError;

/// Message lengths that ChaCha20-Poly1305 accepts (fewer than `u32::MAX` 64-byte blocks).
pub open spec fn aead_length_ok(len: nat) -> bool {
    len / 64 < 0xffff_ffff
}

/// `ChaCha20Poly1305::new(key).encrypt(nonce, plaintext)` (`Nonce::from_slice` needs 12 bytes).
/// Trusted: it fails exactly when the plaintext is too long, and otherwise
/// returns the named ciphertext, 16 bytes longer than the plaintext.
#[verifier::external_body]
pub(crate) fn chacha20poly1305_encrypt(key: &[u8; 32], nonce: &[u8], plaintext: &[u8]) -> (r:
    Result<Vec<u8>, AeadError>)
    requires
        nonce@.len() == 12,
    ensures
        r is Ok <==> aead_length_ok(plaintext@.len()),
        r matches Ok(c) ==> c@ == chacha20poly1305_seal(key@, nonce@, plaintext@) && c@.len()
            == plaintext@.len() + 16,
{
    chacha20poly1305::ChaCha20Poly1305::new(chacha20poly1305::Key::from_slice(key)).encrypt(
        chacha20poly1305::Nonce::from_slice(nonce),
        plaintext,
    ).map_err(|_| AeadError)
}

/// `ChaCha20Poly1305::new(key).decrypt(nonce, ciphertext)` (`Nonce::from_slice` needs 12 bytes).
/// Trusted: a plaintext comes back only when `ciphertext` is its encryption,
/// and the encryption of any accepted plaintext is decrypted back to it.
#[verifier::external_body]
pub(crate) fn chacha20poly1305_decrypt(key: &[u8; 32], nonce: &[u8], ciphertext: &[u8]) -> (r:
    Result<Vec<u8>, AeadError>)
    requires
        nonce@.len() == 12,
    ensures
        r matches Ok(p) ==> aead_length_ok(p@.len()) && ciphertext@ == chacha20poly1305_seal(
            key@,
            nonce@,
            p@,
        ),
        r matches Ok(x) ==> forall|p: Seq<u8>|
            aead_length_ok(p.len()) && ciphertext@ == #[trigger] chacha20poly1305_seal(key@, nonce@, p)
                ==> x@ == p,
        r is Err ==> forall|p: Seq<u8>|
            aead_length_ok(p.len()) ==> ciphertext@ != #[trigger] chacha20poly1305_seal(
                key@,
                nonce@,
                p,
            ),
{
    chacha20poly1305::ChaCha20Poly1305::new(chacha20poly1305::Key::from_slice(key)).decrypt(
        chacha20poly1305::Nonce::from_slice(nonce),
        ciphertext,
    ).map_err(|_| AeadError)
}

// ───────────────────────── Base64 ─────────────────────────

/// A character of the standard Base64 alphabet, or the padding `=`.
pub open spec fn is_base64_char(c: char) -> bool {
    ('A' <= c <= 'Z') || ('a' <= c <= 'z') || ('0' <= c <= '9') || c == '+' || c == '/' || c
        == '='
}

pub proof fn lemma_base64_digit(v: nat)
    requires
        v < 64,
    ensures
        is_base64_char(base64_digit(v)),
{
    if v < 26 {
        let b: u8 = (v + 65) as u8;
        assert(b as char as u32 == b as u32);
    } else if v < 52 {
        let b: u8 = (v + 71) as u8;
        assert(b as char as u32 == b as u32);
    } else if v < 62 {
        let b: u8 = (v - 4) as u8;
        assert(b as char as u32 == b as u32);
    }
}

/// A Base64 text has four characters for every started group of three
/// bytes, all of them from the alphabet or padding.
pub proof fn lemma_base64_shape(bytes: Seq<u8>)
    ensures
        base64_standard(bytes).len() == (bytes.len() + 2) / 3 * 4,
        forall|i: int|
            0 <= i < base64_standard(bytes).len() ==> is_base64_char(
                #[trigger] base64_standard(bytes)[i],
            ),
    decreases bytes.len(),
{
    let e = base64_standard(bytes);
    if bytes.len() > 0 {
        let b0 = bytes[0] as nat;
        lemma_base64_digit(b0 / 4);
        if bytes.len() == 1 {
            lemma_base64_digit((b0 % 4) * 16);
        } else {
            let b1 = bytes[1] as nat;
            lemma_base64_digit((b0 % 4) * 16 + b1 / 16);
            if bytes.len() == 2 {
                lemma_base64_digit((b1 % 16) * 4);
            } else {
                let b2 = bytes[2] as nat;
                lemma_base64_digit((b1 % 16) * 4 + b2 / 64);
                lemma_base64_digit(b2 % 64);
                lemma_base64_shape(bytes.skip(3));
                let rest = base64_standard(bytes.skip(3));
                assert forall|i: int| 0 <= i < e.len() implies is_base64_char(#[trigger] e[i]) by {
                    if i >= 4 {
                        assert(e[i] == rest[i - 4]);
                    }
                }
            }
        }
    }
}

/// `base64::engine::general_purpose::STANDARD.encode(bytes)`.
/// Trusted: the result is the RFC 4648 padded encoding `base64_standard`.
#[verifier::external_body]
pub(crate) fn base64_encode(bytes: &[u8]) -> (r: String)
    requires
        (bytes@.len() + 2) / 3 * 4 <= usize::MAX,
    ensures
        r@ == base64_standard(bytes@),
{
    base64::engine::general_purpose::STANDARD.encode(bytes)
}

/// `base64::engine::general_purpose::STANDARD.decode(text)`, its error dropped.
/// Trusted: decoding succeeds exactly on canonical encodings, and gives back
/// the bytes that were encoded.
#[verifier::external_body]
pub(crate) fn base64_decode(text: &str) -> (r: Option<Vec<u8>>)
    ensures
        r matches Some(b) ==> text@ == base64_standard(b@),
        r matches Some(x) ==> forall|b: Seq<u8>| text@ == #[trigger] base64_standard(b) ==> x@ == b,
        r is None ==> forall|b: Seq<u8>| text@ != #[trigger] base64_standard(b),
{
    base64::engine::general_purpose::STANDARD.decode(text).ok()
}

// ───────────────────────── SHA-256 ─────────────────────────

/// `sha2::Sha256::digest(data)`. Trusted: the result is the named digest.
#[verifier::external_body]
pub(crate) fn sha256(data: &[u8]) -> (r: [u8; 32])
    ensures
        r@ == sha256_digest(data@),
{
    sha2::Sha256::digest(data).into()
}

// ───────────────────────── randomness ─────────────────────────

/// An array filled by `rand::thread_rng().fill_bytes`. Nothing is stated of its bytes.
#[verifier::external_body]
pub(crate) fn random_bytes<const N: usize>() -> (r: [u8; N]) {
    let mut bytes = [0u8;N];
    rand::thread_rng().fill_bytes(&mut bytes);
    bytes
}

/// `rand::random::<u32>()`. Nothing is stated of the value.
#[verifier::external_body]
pub(crate) fn random_u32() -> (r: u32) {
    rand::random::<u32>()
}

} // verus!
