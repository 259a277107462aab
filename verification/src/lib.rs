//! NaiHe: end-to-end encrypted messaging over an MQTT relay.
//!
//! Messages are sealed with ChaCha20-Poly1305 under a key derived from a
//! shared passphrase with Argon2id; a sealed message is
//! `base64( version | salt | nonce | ciphertext | tag )`.
//! The library holds the cipher and its wire format (`cipher`), the bindings
//! to the outside cryptographic crates (`crypto`), broker addresses, session
//! settings and the offline-service exchange (`transport`), the decisions of a
//! chat session (`session`), the runtime integrity probes (`shield`), the
//! presets (`config`) and the string helpers they share (`text`).

pub mod cipher;
pub mod config;
pub mod crypto;
pub mod session;
pub mod shield;
pub mod text;
pub mod transport;
