# naihe

End-to-end encrypted messaging over an MQTT relay, as a Verus-verified library.

- `src/` — the verified library: the cipher and its wire format
  (`base64( version | salt | nonce | ciphertext | tag )`), the unlock check,
  room topics, broker addresses and session settings, the offline-service
  exchange, the chat-session decisions and the runtime integrity probes.
  Calls into `argon2`, `chacha20poly1305`, `base64`, `sha2` and `rand` go
  through the trusted bindings in `src/crypto.rs`.
- `tests/` — tests of the library.
- `app/` — the desktop shell (Tauri commands, the MQTT connection, history
  files, HTTP and environment access), which hands plain values to the library.
