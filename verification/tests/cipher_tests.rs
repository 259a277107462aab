use naihe::cipher::{
    check_gate, derive_key, resembles_cipher, room_topic, seal, seal_bytes, seal_bytes_with,
    seal_with, unseal, unseal_bytes, MIN_FRAME_LEN,
};
use naihe::config;
use base64::Engine;

#[test]
fn roundtrip() {
    let pt = "hello, world!";
    let key = "test-passphrase";
    let ct = seal(pt, key).unwrap();
    let recovered = unseal(&ct, key).unwrap();
    assert_eq!(pt, recovered);
}

#[test]
fn wrong_key_fails() {
    let ct = seal("secret", "right-key").unwrap();
    assert!(unseal(&ct, "wrong-key").is_err());
}

#[test]
fn gate_accepts_correct() {
    assert!(check_gate("technology is innocent"));
    assert!(check_gate("  Technology Is Innocent  "));
}

#[test]
fn gate_rejects_wrong() {
    assert!(!check_gate("wrong passphrase"));
    assert!(!check_gate(""));
}

#[test]
fn resembles_cipher_works() {
    let ct = seal("test", "key").unwrap();
    assert!(resembles_cipher(&ct));
    assert!(!resembles_cipher("not a cipher"));
    assert!(!resembles_cipher("aGVsbG8="));
}

#[test]
fn compute_gate_hash() {
    let hash = derive_key(config::GATE_PASSPHRASE.as_bytes(), &config::GATE_SALT).unwrap();
    let mut line = String::from("const GATE_HASH: [u8; 32] = [");
    for (i, b) in hash.iter().enumerate() {
        if i > 0 {
            line.push_str(", ");
        }
        line.push_str(&format!("0x{b:02x}"));
    }
    line.push_str("];");
    println!("{line}");
}

#[test]
fn bytes_roundtrip() {
    let data = b"binary payload \x00\xff";
    let key = "binary-key";
    let enc = seal_bytes(data, key).unwrap();
    let dec = unseal_bytes(&enc, key).unwrap();
    assert_eq!(data.as_slice(), dec.as_slice());
}

#[test]
fn derive_key_is_deterministic_and_salted() {
    let a = derive_key(b"pass", b"0123456789abcdef").unwrap();
    let b = derive_key(b"pass", b"0123456789abcdef").unwrap();
    let c = derive_key(b"pass", b"fedcba9876543210").unwrap();
    assert_eq!(a, b);
    assert_ne!(a, c);
    assert_ne!(&a[..4], b"pass");
}

#[test]
fn derive_key_rejects_short_salt() {
    assert_eq!(derive_key(b"pass", b"short").unwrap_err(), "argon2 derive: salt is too short");
}

#[test]
fn seal_with_fixed_salt_and_nonce_is_deterministic() {
    let salt = [7u8; 16];
    let nonce = [9u8; 12];
    let a = seal_with("same text", "k", &salt, &nonce).unwrap();
    let b = seal_with("same text", "k", &salt, &nonce).unwrap();
    assert_eq!(a, b);
    // 45 bytes of framing plus 9 bytes of text: 54 bytes, 72 Base64 characters.
    assert_eq!(a.len(), 72);
    assert!(a.starts_with("AQcHBwcH"));
    assert_eq!(unseal(&a, "k").unwrap(), "same text");
}

#[test]
fn seal_bytes_with_frame_layout() {
    let salt = [3u8; 16];
    let nonce = [4u8; 12];
    let frame = seal_bytes_with(b"abc", "k", &salt, &nonce).unwrap();
    assert_eq!(frame.len(), MIN_FRAME_LEN + 3);
    assert_eq!(frame[0], config::CIPHER_VERSION);
    assert_eq!(&frame[1..17], &salt);
    assert_eq!(&frame[17..29], &nonce);
    assert_ne!(&frame[29..32], b"abc");
}

#[test]
fn seal_is_randomized() {
    let a = seal("x", "k").unwrap();
    let b = seal("x", "k").unwrap();
    assert_ne!(a, b);
}

#[test]
fn unseal_accepts_surrounding_whitespace() {
    let ct = seal("padded", "k").unwrap();
    let spaced = format!("  {ct}\n");
    assert_eq!(unseal(&spaced, "k").unwrap(), "padded");
}

#[test]
fn unseal_errors() {
    assert_eq!(unseal("not base64!", "k").unwrap_err(), "invalid encoding");
    assert_eq!(unseal("aGVsbG8=", "k").unwrap_err(), "data too short");
    let version_two = "AgIC".repeat(15);
    assert_eq!(unseal(&version_two, "k").unwrap_err(), "unsupported version: 2");
    let version_one = "AQEBAQEBAQEBAQEBAQEBAQEBAQEBAQEBAQEBAQEBAQEBAQEBAQEBAQEBAQE=";
    assert_eq!(unseal(version_one, "k").unwrap_err(), "data too short");
    let ct = seal("secret", "right").unwrap();
    assert_eq!(
        unseal(&ct, "wrong").unwrap_err(),
        "decryption failed — wrong key or corrupted data"
    );
}

#[test]
fn unseal_rejects_non_utf8_plaintext() {
    let salt = [1u8; 16];
    let nonce = [2u8; 12];
    let frame = seal_bytes_with(&[0xff, 0xfe], "k", &salt, &nonce).unwrap();
    let raw = unseal_bytes(&frame, "k").unwrap();
    assert_eq!(raw, vec![0xff, 0xfe]);
    let encoded = base64::engine::general_purpose::STANDARD.encode(&frame);
    assert_eq!(unseal(&encoded, "k").unwrap_err(), "invalid utf-8 in plaintext");
}

#[test]
fn unseal_bytes_errors() {
    assert_eq!(unseal_bytes(&[1u8; 10], "k").unwrap_err(), "data too short");
    assert_eq!(unseal_bytes(&[5u8; 45], "k").unwrap_err(), "unsupported version: 5");
    let enc = seal_bytes(b"payload", "right").unwrap();
    assert_eq!(unseal_bytes(&enc, "wrong").unwrap_err(), "decryption failed");
    let mut tampered = enc.clone();
    let last = tampered.len() - 1;
    tampered[last] ^= 1;
    assert_eq!(unseal_bytes(&tampered, "right").unwrap_err(), "decryption failed");
}

#[test]
fn resembles_cipher_edges() {
    // An empty plaintext seals to only 60 Base64 characters, below the threshold.
    let empty = seal("", "k").unwrap();
    assert_eq!(empty.len(), 60);
    assert!(!resembles_cipher(&empty));
    let one = seal("a", "k").unwrap();
    assert!(resembles_cipher(&format!(" {one} ")));
    let version_two = "AgIC".repeat(16);
    assert!(!resembles_cipher(&version_two));
    let version_one = "AQEB".repeat(16);
    assert!(resembles_cipher(&version_one));
}

#[test]
fn gate_variants() {
    assert!(check_gate("\tTECHNOLOGY IS INNOCENT\n"));
    assert!(!check_gate("technology  is innocent"));
    assert!(!check_gate("technology is innocent!"));
}

#[test]
fn room_topic_is_prefix_and_hash() {
    assert_eq!(room_topic(""), "nh/e3b0c442");
    assert_eq!(room_topic("lobby"), "nh/4b5dc076");
    assert_eq!(room_topic("room-1"), "nh/2cb5ddf4");
}
