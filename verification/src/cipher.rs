//! ChaCha20-Poly1305 authenticated encryption with Argon2id key derivation,
//! the unlock-passphrase check and the room topic.
//!
//! Wire format: `base64( version[1] | salt[16] | nonce[12] | ciphertext | tag[16] )`.
use vstd::prelude::*;
use vstd::utf8::{decode_utf8, encode_utf8, is_ascii_chars, valid_utf8};
use crate::config::{
    ARGON2_ITERATIONS, ARGON2_MEMORY_KB, ARGON2_PARALLELISM, CIPHER_VERSION, GATE_PASSPHRASE,
    GATE_SALT, MIN_CIPHER_LEN, TOPIC_PREFIX,
};
use crate::crypto::{
    aead_length_ok, argon2_input_error, argon2id_hash, argon2id_v13_key, base64_decode,
    base64_encode, base64_standard, chacha20poly1305_decrypt, chacha20poly1305_encrypt,
    chacha20poly1305_seal, is_base64_char, lemma_base64_shape, random_bytes, sha256, sha256_digest, KdfError,
};
use crate::text::{
    ascii_lowercase, concat, decimal, digit_char, is_white_space, lemma_trim_ascii,
    lemma_trim_identity, lemma_trim_surrounding, to_lowercase, trim, trim_str,
    u64_to_decimal, string_from_utf8, unicode_lowercase, push_char,
};

verus! {

/// Length of the random salt of a frame.
pub const SALT_LEN: usize = 16;

/// Length of the random nonce of a frame.
pub const NONCE_LEN: usize = 12;

/// Length of the Poly1305 tag that ends a frame.
pub const TAG_LEN: usize = 16;

/// Length of the frame header: version, salt and nonce.
pub const HEADER_LEN: usize = 29;

/// Length of the shortest frame: header and tag around an empty ciphertext.
pub const MIN_FRAME_LEN: usize = 45;

/// Pre-computed Argon2id hash of the unlock passphrase; all zeros means "not set".
pub const GATE_HASH: [u8; 32] = [
    0x00, 0x00, 0x00, 0x00, 0x00, 0x00, 0x00, 0x00, 0x00, 0x00, 0x00, 0x00, 0x00, 0x00, 0x00, 0x00,
    0x00, 0x00, 0x00, 0x00, 0x00, 0x00, 0x00, 0x00, 0x00, 0x00, 0x00, 0x00, 0x00, 0x00, 0x00, 0x00,
];

// ───────────────────────── key derivation ─────────────────────────

/// The text of a key-derivation error (as `argon2::Error` displays it).
pub open spec fn kdf_error_text(e: KdfError) -> Seq<char> {
    match e {
        KdfError::PasswordTooLong => "password is too long"@,
        KdfError::SaltTooShort => "salt is too short"@,
        KdfError::SaltTooLong => "salt is too long"@,
        KdfError::Other => "argon2 error"@,
    }
}

/// The key that `derive_key` gives for this password and salt, or its error message.
pub open spec fn derive_key_spec(password: Seq<u8>, salt: Seq<u8>) -> Result<Seq<u8>, Seq<char>> {
    match argon2_input_error(password.len(), salt.len()) {
        Some(e) => Err("argon2 derive: "@ + kdf_error_text(e)),
        None => Ok(
            argon2id_v13_key(ARGON2_MEMORY_KB, ARGON2_ITERATIONS, ARGON2_PARALLELISM, password, salt),
        ),
    }
}

pub open spec fn key_result_view(r: Result<[u8; 32], String>) -> Result<Seq<u8>, Seq<char>> {
    match r {
        Ok(k) => Ok(k@),
        Err(e) => Err(e@),
    }
}

pub open spec fn bytes_result_view(r: Result<Vec<u8>, String>) -> Result<Seq<u8>, Seq<char>> {
    match r {
        Ok(b) => Ok(b@),
        Err(e) => Err(e@),
    }
}

pub open spec fn text_result_view(r: Result<String, String>) -> Result<Seq<char>, Seq<char>> {
    match r {
        Ok(t) => Ok(t@),
        Err(e) => Err(e@),
    }
}

fn kdf_error_message(e: KdfError) -> (r: &'static str)
    ensures
        r@ == kdf_error_text(e),
{
    match e {
        KdfError::PasswordTooLong => "password is too long",
        KdfError::SaltTooShort => "salt is too short",
        KdfError::SaltTooLong => "salt is too long",
        KdfError::Other => "argon2 error",
    }
}

/// Derives a 32-byte key from a passphrase and salt with Argon2id
/// (64 MiB, 3 passes, 4 lanes).
pub fn derive_key(passphrase: &[u8], salt: &[u8]) -> (r: Result<[u8; 32], String>)
    ensures
        key_result_view(r) == derive_key_spec(passphrase@, salt@),
{
    match argon2id_hash(ARGON2_MEMORY_KB, ARGON2_ITERATIONS, ARGON2_PARALLELISM, passphrase, salt) {
        Ok(key) => Ok(key),
        Err(e) => Err(concat("argon2 derive: ", kdf_error_message(e))),
    }
}

// ───────────────────────── unlock check ─────────────────────────

/// Whether `input` unlocks the application: trimmed and lower-cased, it is the passphrase.
pub open spec fn gate_accepts(input: Seq<char>) -> bool {
    unicode_lowercase(trim(input)) == GATE_PASSPHRASE@
}

/// White space typed around the passphrase does not matter: surrounding the
/// input with white space leaves the answer of `check_gate` unchanged.
pub proof fn lemma_unlock_ignores_surrounding_space(pre: Seq<char>, input: Seq<char>, post: Seq<char>)
    requires
        forall|k: int| 0 <= k < pre.len() ==> is_white_space(#[trigger] pre[k]),
        forall|k: int| 0 <= k < post.len() ==> is_white_space(#[trigger] post[k]),
    ensures
        gate_accepts(pre + input + post) == gate_accepts(input),
{
    lemma_trim_surrounding(pre, input, post);
}

/// Constant-time comparison of `hash` against `GATE_HASH`; an all-zero
/// `GATE_HASH` (not set) matches nothing.
fn gate_hash_matches(hash: &[u8; 32]) -> (r: bool)
    ensures
        r == (hash@ == GATE_HASH@ && exists|i: int| 0 <= i < 32 && GATE_HASH@[i] != 0),
{
    let expected: [u8; 32] = GATE_HASH;
    let mut acc: u8 = 0;
    let mut any_set = false;
    let mut i: usize = 0;
    while i < 32
        invariant
            i <= 32,
            expected@ == GATE_HASH@,
            hash@.len() == 32,
            expected@.len() == 32,
            (acc == 0) <==> (forall|k: int| 0 <= k < i ==> hash@[k] == expected@[k]),
            any_set <==> (exists|k: int| 0 <= k < i && expected@[k] != 0),
        decreases 32 - i,
    {
        let a = hash[i];
        let b = expected[i];
        let x = a ^ b;
        assert((acc | x) == 0 <==> (acc == 0 && x == 0)) by (bit_vector);
        assert(x == 0 <==> a == b) by (bit_vector)
            requires
                x == a ^ b,
        ;
        acc = acc | x;
        if b != 0 {
            any_set = true;
        }
        i += 1;
    }
    assert((acc == 0) ==> hash@ =~= GATE_HASH@);
    acc == 0 && any_set
}

/// Verifies the unlock passphrase: `true` exactly when `input`, trimmed and
/// lower-cased, is `GATE_PASSPHRASE`.
pub fn check_gate(input: &str) -> (r: bool)
    ensures
        r == gate_accepts(input@),
        is_ascii_chars(input@) ==> (r == (ascii_lowercase(trim(input@)) == GATE_PASSPHRASE@)),
{
    let trimmed = trim_str(input);
    proof {
        lemma_trim_ascii(input@);
    }
    let normalized = to_lowercase(trimmed.as_str());
    let expected = String::from_str(GATE_PASSPHRASE);
    if normalized == expected {
        return true;
    }
    // Fallback: hash-based comparison, for builds that only ship the hash.

    match derive_key(normalized.as_str().as_bytes(), &GATE_SALT) {
        Ok(hash) => {
            let m = gate_hash_matches(&hash);
            assert(!m) by {
                assert(GATE_HASH@ =~= Seq::new(32, |k: int| 0u8));
            }
            m
        },
        Err(_) => false,
    }
}

// ───────────────────────── room topic ─────────────────────────

/// The lower-case hexadecimal digit of `v < 16`.
pub open spec fn hex_digit(v: nat) -> char {
    if v < 10 {
        digit_char(v)
    } else {
        ((v + 87) as u8) as char
    }
}

/// Lower-case hexadecimal of a byte string, two digits per byte.
pub open spec fn hex_lower(bytes: Seq<u8>) -> Seq<char> {
    Seq::new(
        2 * bytes.len(),
        |i: int|
            if i % 2 == 0 {
                hex_digit((bytes[i / 2] / 16) as nat)
            } else {
                hex_digit((bytes[i / 2] % 16) as nat)
            },
    )
}

/// The MQTT topic of a room: `TOPIC_PREFIX`, `/`, and the first 8 hex digits
/// of the SHA-256 of the room name.
pub open spec fn room_topic_spec(room: Seq<char>) -> Seq<char> {
    TOPIC_PREFIX@ + seq!['/'] + hex_lower(sha256_digest(encode_utf8(room)).take(4))
}

fn hex_char(v: u8) -> (r: char)
    requires
        v < 16,
    ensures
        r == hex_digit(v as nat),
{
    if v < 10 {
        (v + 48) as char
    } else {
        (v + 87) as char
    }
}

/// The MQTT topic for a room name.
pub fn room_topic(room: &str) -> (r: String)
    ensures
        r@ == room_topic_spec(room@),
        r@.len() == 11,
        r@[0] == 'n' && r@[1] == 'h' && r@[2] == '/',
        forall|k: int|
            0 <= k < 4 ==> r@[3 + 2 * k] == hex_digit(
                (#[trigger] sha256_digest(encode_utf8(room@))[k] / 16) as nat,
            ) && r@[4 + 2 * k] == hex_digit((sha256_digest(encode_utf8(room@))[k] % 16) as nat),
{
    let digest = sha256(room.as_bytes());
    let ghost bytes = sha256_digest(encode_utf8(room@)).take(4);
    let mut out = concat(TOPIC_PREFIX, "/");
    let ghost prefix = out@;
    let mut i: usize = 0;
    while i < 4
        invariant
            i <= 4,
            digest@.len() == 32,
            bytes == digest@.take(4),
            out@ == prefix + hex_lower(bytes.take(i as int)),
        decreases 4 - i,
    {
        let b = digest[i];
        let hi = hex_char(b / 16);
        let lo = hex_char(b % 16);
        push_char(&mut out, hi);
        push_char(&mut out, lo);
        proof {
            assert(hex_lower(bytes.take(i + 1)) =~= hex_lower(bytes.take(i as int)) + seq![
                hex_digit((b / 16) as nat),
                hex_digit((b % 16) as nat),
            ]);
        }
        i += 1;
    }
    proof {
        reveal_strlit("/");
        assert(bytes.take(4) =~= bytes);
        lemma_room_topic_hashes_whole_name(room@);
        let h = hex_lower(sha256_digest(encode_utf8(room@)).take(4));
        assert((seq!['n', 'h', '/'] + h)[0] == 'n');
        assert((seq!['n', 'h', '/'] + h)[1] == 'h');
        assert((seq!['n', 'h', '/'] + h)[2] == '/');
    }
    out
}

/// The topic of a room is `nh/` followed by the lower-case hex of the first
/// four bytes of the SHA-256 of the room's whole UTF-8 name, high digit
/// first: eleven characters once the digest has its four leading bytes.
pub proof fn lemma_room_topic_hashes_whole_name(room: Seq<char>)
    ensures
        room_topic_spec(room) == seq!['n', 'h', '/'] + hex_lower(
            sha256_digest(encode_utf8(room)).take(4),
        ),
        sha256_digest(encode_utf8(room)).len() >= 4 ==> {
            &&& room_topic_spec(room).len() == 11
            &&& forall|k: int|
                0 <= k < 4 ==> room_topic_spec(room)[3 + 2 * k] == hex_digit(
                    (#[trigger] sha256_digest(encode_utf8(room))[k] / 16) as nat,
                ) && room_topic_spec(room)[4 + 2 * k] == hex_digit(
                    (sha256_digest(encode_utf8(room))[k] % 16) as nat,
                )
        },
{
    reveal_strlit("nh");
    let d = sha256_digest(encode_utf8(room));
    let t = room_topic_spec(room);
    assert(TOPIC_PREFIX@ + seq!['/'] =~= seq!['n', 'h', '/']);
    if d.len() >= 4 {
        let h = hex_lower(d.take(4));
        assert(h.len() == 8);
        assert forall|k: int| 0 <= k < 4 implies t[3 + 2 * k] == hex_digit(
            (#[trigger] d[k] / 16) as nat,
        ) && t[4 + 2 * k] == hex_digit((d[k] % 16) as nat) by {
            assert(t[3 + 2 * k] == h[2 * k]);
            assert(t[4 + 2 * k] == h[2 * k + 1]);
            assert((2 * k) / 2 == k);
            assert((2 * k + 1) / 2 == k);
            assert((2 * k) % 2 == 0);
            assert((2 * k + 1) % 2 == 1);
        }
    }
}

// ───────────────────────── frames ─────────────────────────

/// A frame: the version byte, the salt, the nonce, then ciphertext and tag.
pub open spec fn frame(salt: Seq<u8>, nonce: Seq<u8>, ciphertext: Seq<u8>) -> Seq<u8> {
    seq![CIPHER_VERSION] + salt + nonce + ciphertext
}

/// The key that seals under `password` and `salt`.
pub open spec fn frame_key(password: Seq<u8>, salt: Seq<u8>) -> Seq<u8> {
    argon2id_v13_key(ARGON2_MEMORY_KB, ARGON2_ITERATIONS, ARGON2_PARALLELISM, password, salt)
}

/// The frame that sealing `data` under `password` with `salt` and `nonce` produces.
pub open spec fn sealed_frame(data: Seq<u8>, password: Seq<u8>, salt: Seq<u8>, nonce: Seq<u8>) -> Seq<
    u8,
> {
    frame(salt, nonce, chacha20poly1305_seal(frame_key(password, salt), nonce, data))
}

/// What `seal_bytes_with` returns for these inputs.
pub open spec fn seal_frame_spec(data: Seq<u8>, password: Seq<u8>, salt: Seq<u8>, nonce: Seq<u8>) -> Result<
    Seq<u8>,
    Seq<char>,
> {
    match derive_key_spec(password, salt) {
        Err(e) => Err(e),
        Ok(key) => if aead_length_ok(data.len()) {
            Ok(frame(salt, nonce, chacha20poly1305_seal(key, nonce, data)))
        } else {
            Err("encrypt: aead::Error"@)
        },
    }
}

/// The facts that hold of a successful sealing of `data` under `password`
/// with `salt` and `nonce`.
pub open spec fn seal_facts(data: Seq<u8>, password: Seq<u8>, salt: Seq<u8>, nonce: Seq<u8>) -> bool {
    &&& salt.len() == SALT_LEN
    &&& nonce.len() == NONCE_LEN
    &&& argon2_input_error(password.len(), salt.len()) is None
    &&& aead_length_ok(data.len())
    &&& chacha20poly1305_seal(frame_key(password, salt), nonce, data).len() == data.len() + TAG_LEN
}

/// `raw` is a frame that sealing `data` under `password` produced.
pub open spec fn is_sealed_bytes(raw: Seq<u8>, data: Seq<u8>, password: Seq<u8>) -> bool {
    exists|salt: Seq<u8>, nonce: Seq<u8>|
        #[trigger] seal_facts(data, password, salt, nonce) && raw == sealed_frame(
            data,
            password,
            salt,
            nonce,
        )
}

fn append_bytes(buf: &mut Vec<u8>, bytes: &[u8])
    ensures
        final(buf)@ == old(buf)@ + bytes@,
{
    buf.extend_from_slice(bytes);
}

/// Encrypts `data` under `passphrase` with the given salt and nonce into a frame.
pub fn seal_bytes_with(data: &[u8], passphrase: &str, salt: &[u8; 16], nonce: &[u8; 12]) -> (r:
    Result<Vec<u8>, String>)
    ensures
        bytes_result_view(r) == seal_frame_spec(data@, encode_utf8(passphrase@), salt@, nonce@),
        r matches Ok(f) ==> seal_facts(data@, encode_utf8(passphrase@), salt@, nonce@) && f@
            == sealed_frame(data@, encode_utf8(passphrase@), salt@, nonce@),
{
    let key = match derive_key(passphrase.as_bytes(), salt) {
        Ok(k) => k,
        Err(e) => return Err(e),
    };
    let ct = match chacha20poly1305_encrypt(&key, nonce, data) {
        Ok(c) => c,
        Err(_) => return Err(String::from_str("encrypt: aead::Error")),
    };
    let mut buf: Vec<u8> = Vec::new();
    buf.push(CIPHER_VERSION);
    append_bytes(&mut buf, salt);
    append_bytes(&mut buf, nonce);
    append_bytes(&mut buf, &ct);
    assert(buf@ =~= frame(salt@, nonce@, ct@));
    Ok(buf)
}

/// Encrypts raw bytes (used for history file persistence) under a fresh random
/// salt and nonce.
pub fn seal_bytes(data: &[u8], passphrase: &str) -> (r: Result<Vec<u8>, String>)
    ensures
        exists|salt: Seq<u8>, nonce: Seq<u8>|
            salt.len() == SALT_LEN && nonce.len() == NONCE_LEN && bytes_result_view(r)
                == seal_frame_spec(data@, encode_utf8(passphrase@), salt, nonce),
        r matches Ok(f) ==> is_sealed_bytes(f@, data@, encode_utf8(passphrase@)),
{
    let salt: [u8; 16] = random_bytes();
    let nonce: [u8; 12] = random_bytes();
    let r = seal_bytes_with(data, passphrase, &salt, &nonce);
    proof {
        if r is Ok {
            assert(seal_facts(data@, encode_utf8(passphrase@), salt@, nonce@));
        }
    }
    r
}

/// Why a frame did not open.
#[derive(Clone, Copy, Debug, PartialEq, Eq, Structural)]
pub enum OpenError {
    TooShort,
    UnsupportedVersion(u8),
    Kdf(KdfError),
    Decrypt,
}

/// The plaintext whose encryption under `key` and `nonce` is `ciphertext`, if any.
pub open spec fn aead_open(key: Seq<u8>, nonce: Seq<u8>, ciphertext: Seq<u8>) -> Option<Seq<u8>> {
    if exists|p: Seq<u8>|
        aead_length_ok(p.len()) && ciphertext == #[trigger] chacha20poly1305_seal(key, nonce, p) {
        Some(
            choose|p: Seq<u8>|
                aead_length_ok(p.len()) && ciphertext == #[trigger] chacha20poly1305_seal(
                    key,
                    nonce,
                    p,
                ),
        )
    } else {
        None
    }
}

/// What opening the frame `raw` under `password` gives.
pub open spec fn open_frame_spec(raw: Seq<u8>, password: Seq<u8>) -> Result<Seq<u8>, OpenError> {
    if raw.len() < MIN_FRAME_LEN {
        Err(OpenError::TooShort)
    } else if raw[0] != CIPHER_VERSION {
        Err(OpenError::UnsupportedVersion(raw[0]))
    } else {
        match argon2_input_error(password.len(), SALT_LEN as nat) {
            Some(e) => Err(OpenError::Kdf(e)),
            None => match aead_open(
                frame_key(password, raw.subrange(1, 17)),
                raw.subrange(17, 29),
                raw.subrange(29, raw.len() as int),
            ) {
                Some(p) => Ok(p),
                None => Err(OpenError::Decrypt),
            },
        }
    }
}

pub open spec fn open_result_view(r: Result<Vec<u8>, OpenError>) -> Result<Seq<u8>, OpenError> {
    match r {
        Ok(b) => Ok(b@),
        Err(e) => Err(e),
    }
}

/// Wire format: a sealed frame is `version | salt | nonce | ciphertext+tag`,
/// 45 bytes longer than the data, and each part reads back from its place.
pub proof fn lemma_frame_layout(data: Seq<u8>, password: Seq<u8>, salt: Seq<u8>, nonce: Seq<u8>)
    requires
        seal_facts(data, password, salt, nonce),
    ensures
        ({
            let raw = sealed_frame(data, password, salt, nonce);
            &&& raw.len() == HEADER_LEN + data.len() + TAG_LEN
            &&& raw[0] == CIPHER_VERSION
            &&& raw.subrange(1, 17) == salt
            &&& raw.subrange(17, 29) == nonce
            &&& raw.subrange(29, raw.len() as int) == chacha20poly1305_seal(
                frame_key(password, salt),
                nonce,
                data,
            )
        }),
{
    let raw = sealed_frame(data, password, salt, nonce);
    let ct = chacha20poly1305_seal(frame_key(password, salt), nonce, data);
    assert(raw.subrange(1, 17) =~= salt);
    assert(raw.subrange(17, 29) =~= nonce);
    assert(raw.subrange(29, raw.len() as int) =~= ct);
}

/// What a sealed frame shows of itself: its length and version, a password
/// that derives a key, and a tail that is the encryption of the data under the
/// key of the frame's own salt and nonce.
pub proof fn lemma_sealed_bytes_parts(raw: Seq<u8>, data: Seq<u8>, password: Seq<u8>)
    requires
        is_sealed_bytes(raw, data, password),
    ensures
        raw.len() == HEADER_LEN + data.len() + TAG_LEN,
        raw[0] == CIPHER_VERSION,
        argon2_input_error(password.len(), SALT_LEN as nat) is None,
        aead_length_ok(data.len()),
        raw.subrange(29, raw.len() as int) == chacha20poly1305_seal(
            frame_key(password, raw.subrange(1, 17)),
            raw.subrange(17, 29),
            data,
        ),
{
    let (salt, nonce) = choose|salt: Seq<u8>, nonce: Seq<u8>|
        #[trigger] seal_facts(data, password, salt, nonce) && raw == sealed_frame(
            data,
            password,
            salt,
            nonce,
        );
    lemma_frame_layout(data, password, salt, nonce);
}

/// Opens a frame: checks its length and version, derives the key from its
/// salt and decrypts the rest.
pub fn open_frame(raw: &[u8], passphrase: &str) -> (r: Result<Vec<u8>, OpenError>)
    ensures
        open_result_view(r) == open_frame_spec(raw@, encode_utf8(passphrase@)),
        forall|data: Seq<u8>|
            is_sealed_bytes(raw@, data, encode_utf8(passphrase@)) ==> open_result_view(r) == Ok::<
                Seq<u8>,
                OpenError,
            >(data),
{
    let ghost password = encode_utf8(passphrase@);
    proof {
        assert forall|data: Seq<u8>| #[trigger] is_sealed_bytes(raw@, data, password) implies {
            &&& raw@.len() == HEADER_LEN + data.len() + TAG_LEN
            &&& raw@[0] == CIPHER_VERSION
            &&& argon2_input_error(password.len(), SALT_LEN as nat) is None
            &&& aead_length_ok(data.len())
            &&& raw@.subrange(29, raw@.len() as int) == chacha20poly1305_seal(
                frame_key(password, raw@.subrange(1, 17)),
                raw@.subrange(17, 29),
                data,
            )
        } by {
            lemma_sealed_bytes_parts(raw@, data, password);
        }
    }
    if raw.len() < MIN_FRAME_LEN {
        return Err(OpenError::TooShort);
    }
    let version = raw[0];
    if version != CIPHER_VERSION {
        return Err(OpenError::UnsupportedVersion(version));
    }
    let salt = &raw[1..17];
    let nonce = &raw[17..29];
    let ct = &raw[29..raw.len()];
    let key = match argon2id_hash(
        ARGON2_MEMORY_KB,
        ARGON2_ITERATIONS,
        ARGON2_PARALLELISM,
        passphrase.as_bytes(),
        salt,
    ) {
        Ok(k) => k,
        Err(e) => return Err(OpenError::Kdf(e)),
    };
    match chacha20poly1305_decrypt(&key, nonce, ct) {
        Ok(p) => Ok(p),
        Err(_) => Err(OpenError::Decrypt),
    }
}

/// The message of an opening error; `decrypt_message` is used for a failed decryption.
pub open spec fn open_error_text(e: OpenError, decrypt_message: Seq<char>) -> Seq<char> {
    match e {
        OpenError::TooShort => "data too short"@,
        OpenError::UnsupportedVersion(v) => "unsupported version: "@ + decimal(v as nat),
        OpenError::Kdf(k) => "argon2 derive: "@ + kdf_error_text(k),
        OpenError::Decrypt => decrypt_message,
    }
}

fn open_error_message(e: OpenError, decrypt_message: &str) -> (r: String)
    ensures
        r@ == open_error_text(e, decrypt_message@),
{
    match e {
        OpenError::TooShort => String::from_str("data too short"),
        OpenError::UnsupportedVersion(v) => {
            let digits = u64_to_decimal(v as u64);
            concat("unsupported version: ", digits.as_str())
        },
        OpenError::Kdf(k) => concat("argon2 derive: ", kdf_error_message(k)),
        OpenError::Decrypt => String::from_str(decrypt_message),
    }
}

/// What `unseal_bytes` returns.
pub open spec fn unseal_bytes_spec(raw: Seq<u8>, passphrase: Seq<char>) -> Result<Seq<u8>, Seq<char>> {
    match open_frame_spec(raw, encode_utf8(passphrase)) {
        Ok(p) => Ok(p),
        Err(e) => Err(open_error_text(e, "decryption failed"@)),
    }
}

/// Decrypts raw bytes produced by `seal_bytes`.
pub fn unseal_bytes(raw: &[u8], passphrase: &str) -> (r: Result<Vec<u8>, String>)
    ensures
        bytes_result_view(r) == unseal_bytes_spec(raw@, passphrase@),
        forall|data: Seq<u8>|
            is_sealed_bytes(raw@, data, encode_utf8(passphrase@)) ==> bytes_result_view(r) == Ok::<
                Seq<u8>,
                Seq<char>,
            >(data),
{
    match open_frame(raw, passphrase) {
        Ok(p) => Ok(p),
        Err(e) => Err(open_error_message(e, "decryption failed")),
    }
}

// ───────────────────────── text messages ─────────────────────────

/// Byte strings whose sealed frame has a Base64 encoding that fits in memory.
pub open spec fn seal_fits(data_len: nat) -> bool {
    (data_len + MIN_FRAME_LEN + 2) / 3 * 4 <= usize::MAX
}

/// What `seal_with` returns for these inputs.
pub open spec fn seal_text_spec(
    plaintext: Seq<char>,
    passphrase: Seq<char>,
    salt: Seq<u8>,
    nonce: Seq<u8>,
) -> Result<Seq<char>, Seq<char>> {
    match seal_frame_spec(encode_utf8(plaintext), encode_utf8(passphrase), salt, nonce) {
        Ok(f) => Ok(base64_standard(f)),
        Err(e) => Err(e),
    }
}

pub open spec fn all_base64(text: Seq<char>) -> bool {
    forall|i: int| 0 <= i < text.len() ==> is_base64_char(#[trigger] text[i])
}

/// The facts that hold of `text` when sealing `plaintext` under `passphrase`
/// with `salt` and `nonce` produced it.
pub open spec fn sealed_text_facts(
    text: Seq<char>,
    plaintext: Seq<char>,
    passphrase: Seq<char>,
    salt: Seq<u8>,
    nonce: Seq<u8>,
) -> bool {
    let f = sealed_frame(encode_utf8(plaintext), encode_utf8(passphrase), salt, nonce);
    &&& seal_facts(encode_utf8(plaintext), encode_utf8(passphrase), salt, nonce)
    &&& text == base64_standard(f)
    &&& all_base64(text)
    &&& text.len() == (f.len() + 2) / 3 * 4
}

/// `text` is what sealing `plaintext` under `passphrase` produced.
pub open spec fn is_sealed_text(text: Seq<char>, plaintext: Seq<char>, passphrase: Seq<char>) -> bool {
    exists|salt: Seq<u8>, nonce: Seq<u8>| #[trigger]
        sealed_text_facts(text, plaintext, passphrase, salt, nonce)
}

/// Encrypts `plaintext` under `passphrase` with the given salt and nonce.
pub fn seal_with(plaintext: &str, passphrase: &str, salt: &[u8; 16], nonce: &[u8; 12]) -> (r:
    Result<String, String>)
    requires
        seal_fits(encode_utf8(plaintext@).len()),
    ensures
        text_result_view(r) == seal_text_spec(plaintext@, passphrase@, salt@, nonce@),
        r matches Ok(t) ==> sealed_text_facts(t@, plaintext@, passphrase@, salt@, nonce@),
{
    match seal_bytes_with(plaintext.as_bytes(), passphrase, salt, nonce) {
        Ok(buf) => {
            proof {
                lemma_base64_shape(buf@);
            }
            Ok(base64_encode(&buf))
        },
        Err(e) => Err(e),
    }
}

/// Encrypts `plaintext` under `passphrase` with a fresh random salt and nonce.
///
/// Wire format: `base64( version[1] || salt[16] || nonce[12] || ciphertext || tag[16] )`.
pub fn seal(plaintext: &str, passphrase: &str) -> (r: Result<String, String>)
    requires
        seal_fits(encode_utf8(plaintext@).len()),
    ensures
        exists|salt: Seq<u8>, nonce: Seq<u8>|
            salt.len() == SALT_LEN && nonce.len() == NONCE_LEN && text_result_view(r)
                == seal_text_spec(plaintext@, passphrase@, salt, nonce),
        r matches Ok(t) ==> is_sealed_text(t@, plaintext@, passphrase@),
{
    let salt: [u8; 16] = random_bytes();
    let nonce: [u8; 12] = random_bytes();
    seal_with(plaintext, passphrase, &salt, &nonce)
}

/// The bytes whose standard Base64 encoding is `text`, if any.
pub open spec fn base64_decoded(text: Seq<char>) -> Option<Seq<u8>> {
    if exists|b: Seq<u8>| text == #[trigger] base64_standard(b) {
        Some(choose|b: Seq<u8>| text == #[trigger] base64_standard(b))
    } else {
        None
    }
}

/// What `unseal` returns.
pub open spec fn unseal_spec(encoded: Seq<char>, passphrase: Seq<char>) -> Result<Seq<char>, Seq<char>> {
    match base64_decoded(trim(encoded)) {
        None => Err("invalid encoding"@),
        Some(raw) => match open_frame_spec(raw, encode_utf8(passphrase)) {
            Err(e) => Err(open_error_text(e, "decryption failed — wrong key or corrupted data"@)),
            Ok(p) => if valid_utf8(p) {
                Ok(decode_utf8(p))
            } else {
                Err("invalid utf-8 in plaintext"@)
            },
        },
    }
}

/// Base64 text is its own trim.
proof fn lemma_base64_trim(text: Seq<char>)
    requires
        all_base64(text),
    ensures
        trim(text) == text,
{
    if text.len() > 0 {
        assert(is_base64_char(text[0]));
        assert(is_base64_char(text.last()));
    }
    lemma_trim_identity(text);
}

/// The frame inside a sealed text, and what the text shows of it.
pub proof fn lemma_sealed_text_frame(text: Seq<char>, pt: Seq<char>, pass: Seq<char>) -> (f: Seq<u8>)
    requires
        is_sealed_text(text, pt, pass),
    ensures
        text == base64_standard(f),
        is_sealed_bytes(f, encode_utf8(pt), encode_utf8(pass)),
        all_base64(text),
        text.len() == (f.len() + 2) / 3 * 4,
{
    let (salt, nonce) = choose|salt: Seq<u8>, nonce: Seq<u8>| #[trigger]
        sealed_text_facts(text, pt, pass, salt, nonce);
    let f = sealed_frame(encode_utf8(pt), encode_utf8(pass), salt, nonce);
    assert(seal_facts(encode_utf8(pt), encode_utf8(pass), salt, nonce));
    f
}

/// Decodes trimmed Base64 text, stating what is known of the result.
fn decode_trimmed(encoded: &str) -> (r: Option<Vec<u8>>)
    ensures
        match r {
            Some(raw) => base64_decoded(trim(encoded@)) == Some(raw@),
            None => base64_decoded(trim(encoded@)) is None,
        },
        forall|pt: Seq<char>, pass: Seq<char>|
            #[trigger] is_sealed_text(encoded@, pt, pass) ==> (r matches Some(raw)
                && is_sealed_bytes(raw@, encode_utf8(pt), encode_utf8(pass))),
{
    let t = trim_str(encoded);
    let r = base64_decode(t.as_str());
    proof {
        assert forall|pt: Seq<char>, pass: Seq<char>|
            #[trigger] is_sealed_text(encoded@, pt, pass) implies (r matches Some(raw)
                && is_sealed_bytes(raw@, encode_utf8(pt), encode_utf8(pass))) by {
            let f = lemma_sealed_text_frame(encoded@, pt, pass);
            lemma_base64_trim(encoded@);
            assert(t@ == base64_standard(f));
        }
    }
    r
}

/// Decrypts text produced by `seal`.
pub fn unseal(encoded: &str, passphrase: &str) -> (r: Result<String, String>)
    ensures
        text_result_view(r) == unseal_spec(encoded@, passphrase@),
        forall|pt: Seq<char>|
            is_sealed_text(encoded@, pt, passphrase@) ==> text_result_view(r) == Ok::<
                Seq<char>,
                Seq<char>,
            >(pt),
{
    let raw = match decode_trimmed(encoded) {
        Some(raw) => raw,
        None => return Err(String::from_str("invalid encoding")),
    };
    let opened = open_frame(&raw, passphrase);
    match opened {
        Err(e) => Err(open_error_message(e, "decryption failed — wrong key or corrupted data")),
        Ok(p) => {
            match string_from_utf8(p) {
                Some(s) => {
                    proof {
                        assert forall|pt: Seq<char>| is_sealed_text(encoded@, pt, passphrase@) implies 
                            s@ == pt by {
                            vstd::utf8::encode_utf8_decode_utf8(pt);
                        }
                    }
                    Ok(s)
                },
                None => {
                    proof {
                        assert forall|pt: Seq<char>| !is_sealed_text(encoded@, pt, passphrase@) by {
                            if is_sealed_text(encoded@, pt, passphrase@) {
                                vstd::utf8::encode_utf8_valid_utf8(pt);
                            }
                        }
                    }
                    Err(String::from_str("invalid utf-8 in plaintext"))
                },
            }
        },
    }
}

/// What `resembles_cipher` answers.
pub open spec fn resembles_cipher_spec(text: Seq<char>) -> bool {
    let t = trim(text);
    &&& encode_utf8(t).len() >= MIN_CIPHER_LEN
    &&& match base64_decoded(t) {
        Some(raw) => raw.len() >= MIN_FRAME_LEN && raw[0] == CIPHER_VERSION,
        None => false,
    }
}

/// Whether a string looks like it could be a sealed message.
pub fn resembles_cipher(text: &str) -> (r: bool)
    ensures
        r == resembles_cipher_spec(text@),
        forall|pt: Seq<char>, pass: Seq<char>|
            is_sealed_text(text@, pt, pass) && pt.len() > 0 ==> r,
        r ==> encode_utf8(trim(text@)).len() >= MIN_CIPHER_LEN,
        r ==> exists|b: Seq<u8>|
            trim(text@) == #[trigger] base64_standard(b) && b.len() >= MIN_FRAME_LEN && b[0]
                == CIPHER_VERSION,
{
    proof {
        assert forall|pt: Seq<char>, pass: Seq<char>|
            #[trigger] is_sealed_text(text@, pt, pass) && pt.len() > 0 implies encode_utf8(
            trim(text@),
        ).len() >= MIN_CIPHER_LEN by {
            lemma_sealed_text_long(text@, pt, pass);
        }
    }
    let t = trim_str(text);
    if t.as_str().as_bytes().len() < MIN_CIPHER_LEN {
        return false;
    }
    match decode_trimmed(text) {
        Some(raw) => {
            proof {
                assert forall|pt: Seq<char>, pass: Seq<char>|
                    #[trigger] is_sealed_text(text@, pt, pass) && pt.len() > 0 implies raw@.len()
                    >= MIN_FRAME_LEN && raw@[0] == CIPHER_VERSION by {
                    lemma_sealed_bytes_parts(raw@, encode_utf8(pt), encode_utf8(pass));
                }
                lemma_base64_decoded_encodes(trim(text@));
            }
            raw.len() >= MIN_FRAME_LEN && raw[0] == CIPHER_VERSION
        },
        None => false,
    }
}

/// What `base64_decoded` gives back encodes to the text it came from.
proof fn lemma_base64_decoded_encodes(t: Seq<char>)
    ensures
        base64_decoded(t) matches Some(b) ==> t == base64_standard(b),
{
}

/// Only standard Base64 is recognised as a sealed message: a recognised text,
/// once trimmed, is the encoding of a frame of at least `MIN_FRAME_LEN` bytes
/// that starts with `CIPHER_VERSION`, and is at least `MIN_CIPHER_LEN` bytes
/// long.
pub proof fn lemma_recognised_text_is_frame(text: Seq<char>)
    requires
        resembles_cipher_spec(text),
    ensures
        encode_utf8(trim(text)).len() >= MIN_CIPHER_LEN,
        exists|b: Seq<u8>|
            trim(text) == #[trigger] base64_standard(b) && b.len() >= MIN_FRAME_LEN && b[0]
                == CIPHER_VERSION,
{
    lemma_base64_decoded_encodes(trim(text));
    let b = base64_decoded(trim(text))->0;
    assert(trim(text) == base64_standard(b));
}

/// A non-empty sealed message is long enough to be recognised: its UTF-8
/// length is at least `MIN_CIPHER_LEN`.
proof fn lemma_sealed_text_long(text: Seq<char>, pt: Seq<char>, pass: Seq<char>)
    requires
        is_sealed_text(text, pt, pass),
        pt.len() > 0,
    ensures
        encode_utf8(trim(text)).len() >= MIN_CIPHER_LEN,
{
    let f = lemma_sealed_text_frame(text, pt, pass);
    lemma_base64_trim(text);
    lemma_sealed_bytes_parts(f, encode_utf8(pt), encode_utf8(pass));
    assert(encode_utf8(pt).len() >= 1);
    assert(f.len() >= 46);
    assert((f.len() + 2) / 3 * 4 >= 64);
    assert(vstd::utf8::is_ascii_chars(text)) by {
        assert forall|i: int| 0 <= i < text.len() implies '\0' <= #[trigger] text[i] <= '\u{7f}' by {
            assert(is_base64_char(text[i]));
        }
    }
    vstd::utf8::is_ascii_chars_encode_utf8(text);
}

} // verus!
