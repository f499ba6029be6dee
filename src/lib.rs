//! Box-stream: an authenticated-encryption framing protocol.
//!
//! Plaintext is cut into packets of at most 4096 bytes; each packet travels as a
//! 34-byte encrypted header (which authenticates the body length and the body's
//! tag) followed by the encrypted body. An encrypted all-zero header marks the
//! authenticated end of the stream.

pub mod box_reader;
pub mod box_writer;
pub mod bytes;
pub mod decryptor;
pub mod encryptor;
pub mod frame;
pub mod laws;
pub mod nonce;
pub mod secretbox;

pub use box_reader::BoxReader;
pub use box_writer::BoxWriter;
pub use decryptor::{DecryptError, Decryptor};
pub use encryptor::Encryptor;
pub use frame::{classify_header, encrypt_goodbye, encrypt_packet, HeaderKind, HEADER_BYTES, MAX_PACKET_SIZE};
pub use nonce::Nonce;
pub use secretbox::Key;
