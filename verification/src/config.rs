//! Configurable presets of the application.
use vstd::prelude::*;

verus! {

/// The passphrase required to unlock the application.
/// Users must type this exactly (case-insensitive, trimmed) to enter.
pub const GATE_PASSPHRASE: &'static str = "technology is innocent";

/// Salt used for hashing the unlock passphrase with Argon2id (the bytes of `nh:gate:verify!0`).
pub const GATE_SALT: [u8; 16] = [
    0x6e, 0x68, 0x3a, 0x67, 0x61, 0x74, 0x65, 0x3a, 0x76, 0x65, 0x72, 0x69, 0x66, 0x79, 0x21, 0x30,
];

/// Argon2id memory cost in KiB (64 MB).
pub const ARGON2_MEMORY_KB: u32 = 65536;

/// Argon2id number of passes.
pub const ARGON2_ITERATIONS: u32 = 3;

/// Argon2id degree of parallelism.
pub const ARGON2_PARALLELISM: u32 = 4;

/// Topic prefix for MQTT channels: messages go to `"{TOPIC_PREFIX}/{room_hash}"`.
pub const TOPIC_PREFIX: &'static str = "nh";

/// Client ID prefix for MQTT connections.
pub const CLIENT_PREFIX: &'static str = "nh-";

/// File extension for encrypted local history files.
pub const HISTORY_EXT: &'static str = "naihe";

/// Ciphertext version byte. Bump this if the wire format changes.
pub const CIPHER_VERSION: u8 = 0x01;

/// Minimum Base64-encoded ciphertext length (in bytes) that auto-detection accepts.
pub const MIN_CIPHER_LEN: usize = 62;

/// MQTT keep-alive interval in seconds.
pub const MQTT_KEEPALIVE_SECS: u64 = 30;

/// MQTT port used when the address names none.
pub const MQTT_DEFAULT_PORT: u16 = 1883;

/// Port of the offline message service on the broker's host.
pub const OFFLINE_SERVICE_PORT: u16 = 3777;

/// Whether runtime integrity checks run.
pub const ENABLE_SHIELD: bool = true;

} // verus!
