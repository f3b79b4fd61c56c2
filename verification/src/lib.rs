//! Recovery of a key that was used to encrypt several messages, and the
//! session in which an operator corrects and extends what was recovered.
//!
//! `analysis` finds key bytes from the ciphertexts alone, by the spaces in
//! the plaintexts. `app` holds the ciphertexts, the key and a cursor, maps
//! the cursor to a byte of a ciphertext, and takes edits of the key there.
//! `event` names what an operator can ask of a session, and `hex` reads
//! ciphertexts from text.

pub mod analysis;
pub mod app;
pub mod event;
pub mod hex;
