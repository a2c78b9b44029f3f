//! The laws of the part store and the reassembler.
//!
//! Each proof function here states one guarantee of the service over the
//! store's map view — the same view the executable functions' contracts
//! speak of: `write_chunk` yields `insert`, `finalize_upload` yields
//! `assembled` at the first gap and `remove_keys` of the consumed parts.

use vstd::prelude::*;
use crate::reassembly::assembled;
use crate::reassembly::concat_all;
use crate::reassembly::consumed_ids;
use crate::reassembly::first_gap;
use crate::reassembly::is_first_gap;
use crate::reassembly::lemma_first_gap_unique;

verus! {

/// What storing one chunk does to the parts view: exactly what
/// `UploadStore::write_chunk` ensures.
pub open spec fn write_part(
    m: Map<(Seq<char>, int), Seq<u8>>,
    key: Seq<char>,
    index: int,
    data: Seq<u8>,
) -> Map<(Seq<char>, int), Seq<u8>> {
    m.insert((key, index), data)
}

/// Two maps that agree on the parts of `key` below `n` assemble the same
/// artifact up to `n`.
proof fn lemma_assembled_agree(
    m1: Map<(Seq<char>, int), Seq<u8>>,
    m2: Map<(Seq<char>, int), Seq<u8>>,
    key: Seq<char>,
    n: int,
)
    requires
        forall|i: int| 0 <= i < n ==> #[trigger] m1[(key, i)] == m2[(key, i)],
    ensures
        assembled(m1, key, n) == assembled(m2, key, n),
    decreases n,
{
    if n > 0 {
        lemma_assembled_agree(m1, m2, key, n - 1);
        assert(m1[(key, n - 1)] == m2[(key, n - 1)]);
    }
}

/// Round trip: split a byte sequence into chunks, store chunk `i` as the
/// part at index `i` for every `i`, leave no part at the next index — then
/// the first gap falls exactly at the chunk count and reassembly returns
/// the original byte sequence, byte for byte.
pub proof fn lemma_round_trip(
    m: Map<(Seq<char>, int), Seq<u8>>,
    key: Seq<char>,
    chunks: Seq<Seq<u8>>,
    file: Seq<u8>,
)
    requires
        forall|i: int| 0 <= i < chunks.len() ==> #[trigger] m.contains_key((key, i)) && m[(
            key,
            i,
        )] == chunks[i],
        !m.contains_key((key, chunks.len() as int)),
        file == concat_all(chunks),
    ensures
        is_first_gap(m, key, chunks.len() as int),
        first_gap(m, key) == chunks.len() as int,
        assembled(m, key, chunks.len() as int) == file,
{
    lemma_assembled_of_chunks(m, key, chunks);
    assert(is_first_gap(m, key, chunks.len() as int));
    lemma_first_gap_unique(m, key, chunks.len() as int, first_gap(m, key));
}

/// The parts holding `chunks` in order assemble to their concatenation.
proof fn lemma_assembled_of_chunks(
    m: Map<(Seq<char>, int), Seq<u8>>,
    key: Seq<char>,
    chunks: Seq<Seq<u8>>,
)
    requires
        forall|i: int| 0 <= i < chunks.len() ==> #[trigger] m.contains_key((key, i)) && m[(
            key,
            i,
        )] == chunks[i],
    ensures
        assembled(m, key, chunks.len() as int) == concat_all(chunks),
    decreases chunks.len(),
{
    if chunks.len() > 0 {
        let pre = chunks.drop_last();
        let last_i = chunks.len() - 1;
        assert(m.contains_key((key, last_i as int)) && m[(key, last_i as int)] == chunks[last_i
            as int]);
        assert forall|i: int| 0 <= i < pre.len() implies #[trigger] m.contains_key((key, i)) && m[(
            key,
            i,
        )] == pre[i] by {
            assert(m.contains_key((key, i)) && m[(key, i)] == chunks[i]);
            assert(pre[i] == chunks[i]);
        }
        lemma_assembled_of_chunks(m, key, pre);
        assert(assembled(m, key, chunks.len() as int) == assembled(m, key, pre.len() as int) + m[(
            key,
            last_i as int,
        )]);
        assert(concat_all(chunks) == concat_all(pre) + chunks.last());
    }
}

/// The parts view after storing chunks `0 .. n` of `chunks` under `key`,
/// in index order — one `write_chunk` per chunk.
pub open spec fn after_uploads(
    m: Map<(Seq<char>, int), Seq<u8>>,
    key: Seq<char>,
    chunks: Seq<Seq<u8>>,
    n: int,
) -> Map<(Seq<char>, int), Seq<u8>>
    decreases n,
{
    if n <= 0 {
        m
    } else {
        write_part(after_uploads(m, key, chunks, n - 1), key, n - 1, chunks[n - 1])
    }
}

/// After the uploads, the store holds exactly the chunks at their indices;
/// every other part identifier is untouched.
proof fn lemma_after_uploads_contents(
    m: Map<(Seq<char>, int), Seq<u8>>,
    key: Seq<char>,
    chunks: Seq<Seq<u8>>,
    n: int,
)
    requires
        0 <= n <= chunks.len(),
    ensures
        forall|i: int| 0 <= i < n ==> #[trigger] after_uploads(m, key, chunks, n).contains_key(
            (key, i),
        ) && after_uploads(m, key, chunks, n)[(key, i)] == chunks[i],
        forall|p: (Seq<char>, int)| !(p.0 == key && 0 <= p.1 < n) ==> #[trigger] after_uploads(
            m,
            key,
            chunks,
            n,
        ).contains_key(p) == m.contains_key(p),
    decreases n,
{
    if n > 0 {
        lemma_after_uploads_contents(m, key, chunks, n - 1);
        let prev = after_uploads(m, key, chunks, n - 1);
        let cur = after_uploads(m, key, chunks, n);
        assert(cur == prev.insert((key, n - 1), chunks[n - 1]));
        assert forall|i: int| 0 <= i < n implies #[trigger] cur.contains_key((key, i)) && cur[(
            key,
            i,
        )] == chunks[i] by {
            if i < n - 1 {
                assert(prev.contains_key((key, i)) && prev[(key, i)] == chunks[i]);
                assert((key, i) != (key, n - 1));
            }
        }
        assert forall|p: (Seq<char>, int)| !(p.0 == key && 0 <= p.1 < n)
            implies #[trigger] cur.contains_key(p) == m.contains_key(p) by {
            assert(p != (key, n - 1));
            assert(!(p.0 == key && 0 <= p.1 < n - 1));
            assert(prev.contains_key(p) == m.contains_key(p));
        }
    }
}

/// Round trip, end to end: start from any store with no part at index `N`
/// for `key` (`N` the number of chunks), store chunk `i` at index `i` for
/// every `i` in order, and reassemble — the first gap falls exactly at `N`
/// and the artifact is byte-identical to the original file.
pub proof fn lemma_upload_round_trip(
    m: Map<(Seq<char>, int), Seq<u8>>,
    key: Seq<char>,
    chunks: Seq<Seq<u8>>,
    file: Seq<u8>,
)
    requires
        !m.contains_key((key, chunks.len() as int)),
        file == concat_all(chunks),
    ensures
        is_first_gap(after_uploads(m, key, chunks, chunks.len() as int), key, chunks.len() as int),
        first_gap(after_uploads(m, key, chunks, chunks.len() as int), key) == chunks.len() as int,
        assembled(
            after_uploads(m, key, chunks, chunks.len() as int),
            key,
            chunks.len() as int,
        ) == file,
{
    let n = chunks.len() as int;
    let mn = after_uploads(m, key, chunks, n);
    lemma_after_uploads_contents(m, key, chunks, n);
    assert(mn.contains_key((key, n)) == m.contains_key((key, n)));
    lemma_round_trip(mn, key, chunks, file);
}

/// Idempotent retransmission: storing the same chunk twice with identical
/// content leaves the parts view exactly as storing it once — replacement,
/// not append — so completion afterwards yields the same artifact.
pub proof fn lemma_idempotent_retransmission(
    m: Map<(Seq<char>, int), Seq<u8>>,
    key: Seq<char>,
    index: int,
    data: Seq<u8>,
)
    ensures
        write_part(write_part(m, key, index, data), key, index, data) == write_part(
            m,
            key,
            index,
            data,
        ),
{
    assert(write_part(write_part(m, key, index, data), key, index, data) =~= write_part(
        m,
        key,
        index,
        data,
    ));
}

/// Isolation under writes: storing a chunk of one upload changes nothing
/// another upload key can observe — neither which of its parts exist, nor
/// their bytes, nor its first gap, nor what reassembly of it produces.
pub proof fn lemma_write_isolation(
    m: Map<(Seq<char>, int), Seq<u8>>,
    key1: Seq<char>,
    index: int,
    data: Seq<u8>,
    key2: Seq<char>,
    n: int,
)
    requires
        key1 != key2,
        n >= 0,
    ensures
        forall|i: int| #[trigger] write_part(m, key1, index, data).contains_key((key2, i))
            == m.contains_key((key2, i)),
        forall|i: int| #[trigger] write_part(m, key1, index, data)[(key2, i)] == m[(key2, i)],
        forall|g: int| is_first_gap(write_part(m, key1, index, data), key2, g) == is_first_gap(
            m,
            key2,
            g,
        ),
        assembled(write_part(m, key1, index, data), key2, n) == assembled(m, key2, n),
{
    let m2 = write_part(m, key1, index, data);
    assert forall|i: int| #[trigger] m2.contains_key((key2, i)) == m.contains_key((key2, i)) by {
        assert((key2, i) != (key1, index));
    }
    assert forall|i: int| #[trigger] m2[(key2, i)] == m[(key2, i)] by {
        assert((key2, i) != (key1, index));
    }
    assert forall|g: int| is_first_gap(m2, key2, g) == is_first_gap(m, key2, g) by {
        assert forall|i: int| 0 <= i < g implies m2.contains_key((key2, i)) == m.contains_key(
            (key2, i),
        ) by {}
        if is_first_gap(m, key2, g) {
            assert(!m2.contains_key((key2, g)));
            assert(is_first_gap(m2, key2, g));
        }
        if is_first_gap(m2, key2, g) {
            assert(!m.contains_key((key2, g)));
            assert(is_first_gap(m, key2, g));
        }
    }
    lemma_assembled_agree(m2, m, key2, n);
}

/// Isolation under finalization: reassembling one upload consumes only its
/// own parts and records only its own artifact; every other key's parts,
/// first gap, assembled artifact, and recorded artifact are untouched.
pub proof fn lemma_finalize_isolation(
    m: Map<(Seq<char>, int), Seq<u8>>,
    finals: Map<Seq<char>, Seq<u8>>,
    key1: Seq<char>,
    n1: int,
    artifact: Seq<u8>,
    key2: Seq<char>,
    n: int,
)
    requires
        key1 != key2,
        n >= 0,
    ensures
        forall|i: int| #[trigger] m.remove_keys(consumed_ids(key1, n1)).contains_key((key2, i))
            == m.contains_key((key2, i)),
        forall|i: int| m.contains_key((key2, i)) ==> #[trigger] m.remove_keys(
            consumed_ids(key1, n1),
        )[(key2, i)] == m[(key2, i)],
        forall|g: int| is_first_gap(m.remove_keys(consumed_ids(key1, n1)), key2, g)
            == is_first_gap(m, key2, g),
        (forall|i: int| 0 <= i < n ==> #[trigger] m.contains_key((key2, i))) ==> assembled(
            m.remove_keys(consumed_ids(key1, n1)),
            key2,
            n,
        ) == assembled(m, key2, n),
        finals.insert(key1, artifact).contains_key(key2) == finals.contains_key(key2),
        finals.contains_key(key2) ==> finals.insert(key1, artifact)[key2] == finals[key2],
{
    let mr = m.remove_keys(consumed_ids(key1, n1));
    assert forall|i: int| #[trigger] mr.contains_key((key2, i)) == m.contains_key((key2, i)) by {
        assert(!consumed_ids(key1, n1).contains((key2, i)));
    }
    assert forall|i: int| m.contains_key((key2, i)) implies #[trigger] mr[(key2, i)] == m[(
        key2,
        i,
    )] by {
        assert(!consumed_ids(key1, n1).contains((key2, i)));
    }
    assert forall|g: int| is_first_gap(mr, key2, g) == is_first_gap(m, key2, g) by {
        assert forall|i: int| 0 <= i < g implies mr.contains_key((key2, i)) == m.contains_key(
            (key2, i),
        ) by {}
        if is_first_gap(m, key2, g) {
            assert(!mr.contains_key((key2, g)));
            assert(is_first_gap(mr, key2, g));
        }
        if is_first_gap(mr, key2, g) {
            assert(!m.contains_key((key2, g)));
            assert(is_first_gap(m, key2, g));
        }
    }
    if forall|i: int| 0 <= i < n ==> #[trigger] m.contains_key((key2, i)) {
        assert forall|i: int| 0 <= i < n implies #[trigger] mr[(key2, i)] == m[(key2, i)] by {
            assert(m.contains_key((key2, i)));
        }
        lemma_assembled_agree(mr, m, key2, n);
    }
}

/// Gap handling: when some part below the declared total was never stored,
/// the first gap lies below the total, so strict finalization refuses with
/// `IncompleteUpload` rather than recording a truncated artifact as
/// complete (`finalize_upload_strict` fails exactly when the first gap lies
/// below the declared total).
pub proof fn lemma_gap_forces_incomplete(
    m: Map<(Seq<char>, int), Seq<u8>>,
    key: Seq<char>,
    g: int,
    declared_total: int,
)
    requires
        0 <= g < declared_total,
        !m.contains_key((key, g)),
        is_first_gap(m, key, first_gap(m, key)),
    ensures
        first_gap(m, key) < declared_total,
{
    crate::reassembly::lemma_gap_not_past_missing(m, key, first_gap(m, key), g);
}

} // verus!
