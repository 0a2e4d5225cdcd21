//! Verified core of a local version-control storage engine: the
//! content-addressable object codec, the canonical tree encoding, and the
//! binary staging-index codec. File and directory I/O stays outside; the
//! library computes the exact bytes that are read from and written to disk.

pub mod bytes;
pub mod commit;
pub mod compress;
pub mod hashing;
pub mod index;
pub mod objects;
pub mod tree;
