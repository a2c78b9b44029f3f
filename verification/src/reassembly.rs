//! The reassembler.
//!
//! Reassembly reads parts strictly in ascending index order starting at 0
//! and stops at the first missing index — the completeness signal.  The
//! artifact is the concatenation of exactly the parts consumed; afterwards
//! those parts are deleted.  `finalize_upload` follows the lenient rule
//! (stop at the gap, whatever the declared total); `finalize_upload_strict`
//! refuses with `IncompleteUpload` when the gap lies below the declared
//! total chunk count, leaving the store untouched.

use vstd::prelude::*;
use crate::store::UploadStore;
use crate::UploadError;

verus! {

/// The concatenation of the parts of `key` at indices `0 .. n`.
pub open spec fn assembled(m: Map<(Seq<char>, int), Seq<u8>>, key: Seq<char>, n: int) -> Seq<u8>
    decreases n,
{
    if n <= 0 {
        Seq::empty()
    } else {
        assembled(m, key, n - 1) + m[(key, n - 1)]
    }
}

/// `n` is the first missing index of `key`: every lower index has a part,
/// `n` itself has none.
pub open spec fn is_first_gap(m: Map<(Seq<char>, int), Seq<u8>>, key: Seq<char>, n: int) -> bool {
    &&& n >= 0
    &&& forall|i: int| 0 <= i < n ==> m.contains_key((key, i))
    &&& !m.contains_key((key, n))
}

/// The first missing index of `key`, where one exists (it always does for
/// the view of a store, which holds finitely many parts).
pub open spec fn first_gap(m: Map<(Seq<char>, int), Seq<u8>>, key: Seq<char>) -> int {
    choose|n: int| is_first_gap(m, key, n)
}

/// The first missing index is unique.
pub proof fn lemma_first_gap_unique(
    m: Map<(Seq<char>, int), Seq<u8>>,
    key: Seq<char>,
    a: int,
    b: int,
)
    requires
        is_first_gap(m, key, a),
        is_first_gap(m, key, b),
    ensures
        a == b,
{
    if a < b {
        assert(m.contains_key((key, a)));
    }
    if b < a {
        assert(m.contains_key((key, b)));
    }
}

/// A missing part below `n` means `n` is past the first gap: reassembly
/// stopping at the gap can never cover index `g`.
pub proof fn lemma_gap_not_past_missing(
    m: Map<(Seq<char>, int), Seq<u8>>,
    key: Seq<char>,
    n: int,
    g: int,
)
    requires
        is_first_gap(m, key, n),
        0 <= g,
        !m.contains_key((key, g)),
    ensures
        n <= g,
{
    if g < n {
        assert(m.contains_key((key, g)));
    }
}

/// The part identifiers consumed by reassembling `key` up to index `n`.
pub open spec fn consumed_ids(key: Seq<char>, n: int) -> Set<(Seq<char>, int)> {
    Set::new(|p: (Seq<char>, int)| p.0 == key && 0 <= p.1 < n)
}

/// The concatenation of a sequence of chunks, in order.
pub open spec fn concat_all(chunks: Seq<Seq<u8>>) -> Seq<u8>
    decreases chunks.len(),
{
    if chunks.len() == 0 {
        Seq::empty()
    } else {
        concat_all(chunks.drop_last()) + chunks.last()
    }
}

/// Appends all of `src` to `out`.
fn append_bytes(out: &mut Vec<u8>, src: &Vec<u8>)
    ensures
        final(out)@ == old(out)@ + src@,
{
    let n = src.len();
    let mut i: usize = 0;
    while i < n
        invariant
            0 <= i <= n,
            n == src@.len(),
            out@ == old(out)@ + src@.take(i as int),
        decreases n - i,
    {
        out.push(src[i]);
        i = i + 1;
        proof {
            assert(old(out)@ + src@.take(i as int) =~= (old(out)@ + src@.take(i - 1)).push(
                src@[i - 1],
            ));
        }
    }
    proof {
        assert(src@.take(n as int) =~= src@);
    }
}

/// Finds the first missing index of `key`: the reassembler's completeness
/// probe, and the point where concatenation will stop.
pub fn find_first_gap(store: &UploadStore, key: &str) -> (n: usize)
    requires
        store.wf(),
    ensures
        is_first_gap(store.parts_map(), key@, n as int),
        n as int == first_gap(store.parts_map(), key@),
{
    let cap = store.part_count();
    let mut n: usize = 0;
    while store.part_exists(key, n)
        invariant
            store.wf(),
            cap == store.spec_part_count(),
            0 <= n <= cap,
            forall|i: int| 0 <= i < n ==> store.parts_map().contains_key((key@, i)),
        decreases cap - n,
    {
        proof {
            assert(store.parts_map().contains_key((key@, n as int)));
            store.lemma_contiguous_bound(key@, n as int + 1);
        }
        n = n + 1;
    }
    proof {
        assert(is_first_gap(store.parts_map(), key@, n as int));
        lemma_first_gap_unique(
            store.parts_map(),
            key@,
            n as int,
            first_gap(store.parts_map(), key@),
        );
    }
    n
}

/// Reassembles the upload `key`: concatenates its parts in ascending index
/// order from 0 up to the first missing index, records the result as the
/// finalized artifact for `key` (replacing any earlier artifact), deletes
/// exactly the parts consumed, and returns the artifact's bytes.
pub fn finalize_upload(store: &mut UploadStore, key: &str) -> (r: Vec<u8>)
    requires
        old(store).wf(),
    ensures
        final(store).wf(),
        is_first_gap(old(store).parts_map(), key@, first_gap(old(store).parts_map(), key@)),
        r@ == assembled(
            old(store).parts_map(),
            key@,
            first_gap(old(store).parts_map(), key@),
        ),
        final(store).parts_map() == old(store).parts_map().remove_keys(
            consumed_ids(key@, first_gap(old(store).parts_map(), key@)),
        ),
        final(store).finals_map() == old(store).finals_map().insert(key@, r@),
{
    let ghost m0 = store.parts_map();
    let ghost fm0 = store.finals_map();
    let total = find_first_gap(store, key);
    let mut out: Vec<u8> = Vec::new();
    let mut i: usize = 0;
    while i < total
        invariant
            store.wf(),
            store.parts_map() == m0,
            store.finals_map() == fm0,
            0 <= i <= total,
            is_first_gap(m0, key@, total as int),
            out@ == assembled(m0, key@, i as int),
        decreases total - i,
    {
        let part = store.read_part(key, i);
        match part {
            Option::Some(d) => {
                append_bytes(&mut out, d);
            },
            Option::None => {
                proof {
                    assert(m0.contains_key((key@, i as int)));
                    assert(false);
                }
            },
        }
        i = i + 1;
    }
    let mut stored: Vec<u8> = Vec::new();
    append_bytes(&mut stored, &out);
    proof {
        assert(stored@ =~= out@);
        assert(m0.remove_keys(consumed_ids(key@, 0)) =~= m0);
    }
    let mut j: usize = 0;
    while j < total
        invariant
            store.wf(),
            0 <= j <= total,
            store.parts_map() == m0.remove_keys(consumed_ids(key@, j as int)),
            store.finals_map() == fm0,
        decreases total - j,
    {
        store.remove_part(key, j);
        proof {
            assert(m0.remove_keys(consumed_ids(key@, j as int)).remove((key@, j as int))
                =~= m0.remove_keys(consumed_ids(key@, j + 1)));
        }
        j = j + 1;
    }
    store.put_final(key, stored);
    out
}

/// Strict finalization: reassembles `key` only when no part below the
/// declared total chunk count is missing.  When the first gap lies below
/// `declared_total` it returns `IncompleteUpload` and changes nothing — a
/// truncated artifact is never recorded as complete.
pub fn finalize_upload_strict(store: &mut UploadStore, key: &str, declared_total: usize) -> (r:
    Result<Vec<u8>, UploadError>)
    requires
        old(store).wf(),
    ensures
        final(store).wf(),
        is_first_gap(old(store).parts_map(), key@, first_gap(old(store).parts_map(), key@)),
        first_gap(old(store).parts_map(), key@) < declared_total as int ==> {
            &&& r == Err::<Vec<u8>, UploadError>(UploadError::IncompleteUpload)
            &&& final(store).parts_map() == old(store).parts_map()
            &&& final(store).finals_map() == old(store).finals_map()
        },
        first_gap(old(store).parts_map(), key@) >= declared_total as int ==> {
            &&& r matches Ok(v) && v@ == assembled(
                old(store).parts_map(),
                key@,
                first_gap(old(store).parts_map(), key@),
            )
            &&& final(store).parts_map() == old(store).parts_map().remove_keys(
                consumed_ids(key@, first_gap(old(store).parts_map(), key@)),
            )
            &&& r matches Ok(v) && final(store).finals_map() == old(store).finals_map().insert(
                key@,
                v@,
            )
        },
{
    let gap = find_first_gap(store, key);
    if gap < declared_total {
        Err(UploadError::IncompleteUpload)
    } else {
        Ok(finalize_upload(store, key))
    }
}

/// Concatenates a list of parts into one artifact, in order: the pure
/// computation at the heart of reassembly.
pub fn concat_parts(parts: &Vec<Vec<u8>>) -> (r: Vec<u8>)
    ensures
        r@ == concat_all(parts@.map_values(|v: Vec<u8>| v@)),
{
    let ghost cs = parts@.map_values(|v: Vec<u8>| v@);
    let mut out: Vec<u8> = Vec::new();
    let n = parts.len();
    let mut i: usize = 0;
    while i < n
        invariant
            0 <= i <= n,
            n == parts@.len(),
            cs == parts@.map_values(|v: Vec<u8>| v@),
            out@ == concat_all(cs.take(i as int)),
        decreases n - i,
    {
        append_bytes(&mut out, &parts[i]);
        i = i + 1;
        proof {
            assert(cs.take(i as int).drop_last() =~= cs.take(i - 1));
            assert(cs.take(i as int).last() == cs[i - 1]);
        }
    }
    proof {
        assert(cs.take(n as int) =~= cs);
    }
    out
}

} // verus!
