//! Decoder for a two-file game asset archive: a metadata file that lists
//! the stored files, and a payload file that holds them.
//!
//! The metadata file is encrypted block by block with an RSA key pair whose
//! public half ships with the game. Decrypted, it holds a header, a table of
//! buckets and, for each bucket, a run of file records. A file record names
//! where the payload of its file lies and points to a key table entry with
//! the AES key and the spans of the payload that are encrypted.
//!
//! - [`cursor`] reads little-endian fields out of the decrypted metadata.
//! - [`bhd`] holds the records of the metadata and reads each from a cursor.
//! - [`util`] decrypts the metadata file and the payload of a file.
//! - [`archive`] goes from a metadata file to its file records, and from a
//!   file record to the plaintext of its file.
//! - [`dictionary`] hashes paths and names the recovered files.
//! - [`primitives`] holds the calls into the `openssl` and `aes` crates.

pub mod archive;
pub mod bhd;
pub mod cursor;
pub mod dictionary;
pub mod primitives;
pub mod util;
