//! A minimal content-addressable object store.
//!
//! Immutable objects (blobs, trees and commits) are stored under the SHA-1
//! digest of their own envelope, `<kind> <size>\0<content>`, as zlib
//! streams. The library holds the rules of that store and proves them:
//!
//! - `codec` writes and reads envelopes, `transport` compresses them and
//!   `digest` names them;
//! - `tree` keeps the entries of a tree in name order (`order`) and writes
//!   them; `listing` reads them back;
//! - `snapshot` turns a directory, given as values, into the blobs and
//!   trees that store it;
//! - `store` lays objects out on disk, and `commit` writes the content of
//!   commits.
//!
//! Nothing here touches a file: callers hand in bytes and get bytes back.

pub mod bytes;
pub mod codec;
pub mod commit;
pub mod decimal;
pub mod digest;
pub mod error;
pub mod kind;
pub mod listing;
pub mod order;
pub mod snapshot;
pub mod store;
pub mod transport;
pub mod tree;
