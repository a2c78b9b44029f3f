//! The upload coordinator.
//!
//! One request, end to end: resolve the chunk's identity, reject an empty
//! upload key, store the chunk (fully replacing any earlier transmission of
//! the same index), and — when the declared total chunk count has been
//! reached — reassemble the artifact.  The caller that runs requests
//! concurrently must serialize calls for the same upload key; calls for
//! different keys are independent (see the isolation laws).

use vstd::prelude::*;
use crate::identity::key_of;
use crate::identity::numeric_field_ok;
use crate::identity::numeric_field_value;
use crate::identity::resolve_identity;
use crate::naming::dec_str;
use crate::reassembly::assembled;
use crate::reassembly::consumed_ids;
use crate::reassembly::finalize_upload;
use crate::reassembly::finalize_upload_strict;
use crate::reassembly::first_gap;
use crate::reassembly::is_first_gap;
use crate::store::UploadStore;
use crate::is_last_chunk;
use crate::UploadError;
use vstd::string::StringExecFns;

verus! {

/// A successful response names the upload key and the chunk index that
/// were processed.
pub struct UploadResponse {
    /// The upload key the chunk belongs to.
    pub filename: String,
    /// 0-based index of the chunk that was stored.
    pub chunk_index: usize,
}

/// The confirmation text of a response: `<key> - chunk <index> uploaded`.
pub open spec fn confirmation_text(key: Seq<char>, index: nat) -> Seq<char> {
    key + seq![' ', '-', ' ', 'c', 'h', 'u', 'n', 'k', ' '] + dec_str(index) + seq![
        ' ',
        'u',
        'p',
        'l',
        'o',
        'a',
        'd',
        'e',
        'd',
    ]
}

impl UploadResponse {
    /// The human-readable confirmation body of this response.
    pub fn confirmation(&self) -> (r: String)
        ensures
            r@ == confirmation_text(self.filename@, self.chunk_index as nat),
    {
        let mut s = self.filename.clone();
        s.append(" - chunk ");
        let digits = crate::naming::usize_to_string(self.chunk_index);
        s.append(digits.as_str());
        s.append(" uploaded");
        proof {
            reveal_strlit(" - chunk ");
            reveal_strlit(" uploaded");
            assert((" - chunk ")@ =~= seq![' ', '-', ' ', 'c', 'h', 'u', 'n', 'k', ' ']);
            assert((" uploaded")@ =~= seq![' ', 'u', 'p', 'l', 'o', 'a', 'd', 'e', 'd']);
            assert(s@ =~= confirmation_text(self.filename@, self.chunk_index as nat));
        }
        s
    }
}

/// The request's metadata is acceptable: numeric fields parse and the
/// upload key is present and nonempty.
pub open spec fn request_well_formed(
    file_name: Option<&str>,
    chunk_index: Option<&str>,
    total_chunks: Option<&str>,
) -> bool {
    &&& numeric_field_ok(chunk_index)
    &&& numeric_field_ok(total_chunks)
    &&& key_of(file_name).len() > 0
}

/// The request declares the final chunk: its index is one below the
/// declared total.  A declared total of zero never finalizes.
pub open spec fn is_last_request(chunk_index: Option<&str>, total_chunks: Option<&str>) -> bool {
    &&& numeric_field_value(total_chunks) > 0
    &&& numeric_field_value(chunk_index) == numeric_field_value(total_chunks) - 1
}

/// Handles one chunk upload request against the store.
///
/// Rejects malformed metadata or a missing/empty upload key with
/// `BadRequest`, touching nothing.  Otherwise stores the chunk's bytes
/// (replacing any earlier part at the same index) and, when this chunk's
/// declared position is the last, reassembles the artifact: leniently up to
/// the first missing index, or — with `strict` — refusing with
/// `IncompleteUpload` (the chunk stays stored, nothing is reassembled) when
/// a part below the declared total is missing.
pub fn handle_chunk(
    store: &mut UploadStore,
    file_name: Option<&str>,
    chunk_index: Option<&str>,
    total_chunks: Option<&str>,
    strict: bool,
    data: Vec<u8>,
) -> (r: Result<UploadResponse, UploadError>)
    requires
        old(store).wf(),
    ensures
        final(store).wf(),
        !request_well_formed(file_name, chunk_index, total_chunks) ==> {
            &&& r == Err::<UploadResponse, UploadError>(UploadError::BadRequest)
            &&& final(store).parts_map() == old(store).parts_map()
            &&& final(store).finals_map() == old(store).finals_map()
        },
        request_well_formed(file_name, chunk_index, total_chunks) ==> ({
            let key = key_of(file_name);
            let idx = numeric_field_value(chunk_index) as int;
            let m1 = old(store).parts_map().insert((key, idx), data@);
            &&& (!is_last_request(chunk_index, total_chunks) ==> {
                &&& final(store).parts_map() == m1
                &&& final(store).finals_map() == old(store).finals_map()
                &&& r matches Ok(resp) && resp.filename@ == key && resp.chunk_index as int == idx
            })
            &&& (is_last_request(chunk_index, total_chunks) ==> ({
                let gap = first_gap(m1, key);
                &&& is_first_gap(m1, key, gap)
                &&& ((strict && gap < numeric_field_value(total_chunks) as int) ==> {
                    &&& r == Err::<UploadResponse, UploadError>(UploadError::IncompleteUpload)
                    &&& final(store).parts_map() == m1
                    &&& final(store).finals_map() == old(store).finals_map()
                })
                &&& (!(strict && gap < numeric_field_value(total_chunks) as int) ==> {
                    &&& final(store).parts_map() == m1.remove_keys(consumed_ids(key, gap))
                    &&& final(store).finals_map() == old(store).finals_map().insert(
                        key,
                        assembled(m1, key, gap),
                    )
                    &&& r matches Ok(resp) && resp.filename@ == key && resp.chunk_index as int
                        == idx
                })
            }))
        }),
{
    let info = match resolve_identity(file_name, chunk_index, total_chunks) {
        Ok(info) => info,
        Err(e) => {
            return Err(e);
        },
    };
    if info.filename.as_str().is_empty() {
        return Err(UploadError::BadRequest);
    }
    store.write_chunk(info.filename.as_str(), info.chunk_index, data);
    if is_last_chunk(info.chunk_index, info.total_chunk) {
        if strict {
            match finalize_upload_strict(store, info.filename.as_str(), info.total_chunk) {
                Ok(_bytes) => {},
                Err(e) => {
                    return Err(e);
                },
            }
        } else {
            let _bytes = finalize_upload(store, info.filename.as_str());
        }
    }
    Ok(UploadResponse { filename: info.filename, chunk_index: info.chunk_index })
}

} // verus!
