//! Verifiable remote file storage: a client encrypts and uploads files to an
//! untrusted server, keeping only a Merkle root over the ciphertext hashes;
//! any file downloaded later is checked against that root with a
//! server-supplied inclusion proof, so tampering or substitution is detected.
//!
//! The crate holds the verified core: the Merkle commitment engine, the wire
//! codec for proofs and client state, the client's commitment bookkeeping and
//! the server's per-bucket store.  Transport, disk and terminal plumbing live
//! outside it and talk to the core through plain values.

pub mod hashing;
pub mod tree;
pub mod codec;
pub mod client;
pub mod bucket;
