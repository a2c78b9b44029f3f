//! Verified core of a chunked file-upload service.
//!
//! A client transmits a large file as independently sent chunks; the service
//! stores each chunk as a part, decides when the upload is complete, and
//! reassembles the parts, in index order, into the final artifact exactly
//! once.  The modules here hold the verified logic: chunk identity
//! resolution, deterministic part naming, the part store with its
//! replace-on-write semantics, the reassembler, and the per-request
//! coordinator.  Filesystem and HTTP plumbing live outside the library and
//! call into it with plain values.

use vstd::prelude::*;

pub mod coordinator;
pub mod identity;
pub mod laws;
pub mod naming;
pub mod reassembly;
pub mod store;

verus! {

/// The error taxonomy of the service.
///
/// `BadRequest`: missing or unparseable request metadata.
/// `StorageError`: a filesystem failure reported by the storage adapter.
/// `IncompleteUpload`: strict finalization found a missing part below the
/// declared total chunk count.
#[derive(Clone, Copy, Debug, PartialEq, Eq, Structural)]
pub enum UploadError {
    BadRequest,
    StorageError,
    IncompleteUpload,
}

/// The "is this the last chunk" decision of the coordinator: the declared
/// total has been reached when the 0-based index is one below it.  A
/// declared total of zero never triggers finalization.
pub fn is_last_chunk(chunk_index: usize, total_chunks: usize) -> (r: bool)
    ensures
        r == (total_chunks > 0 && chunk_index as int == total_chunks as int - 1),
{
    total_chunks > 0 && chunk_index == total_chunks - 1
}

} // verus!
