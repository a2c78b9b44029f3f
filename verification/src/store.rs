//! The part store: the model of the upload directory.
//!
//! The directory holds, for each upload key, at most one part per chunk
//! index, plus the finalized artifacts.  Its mathematical view is a pair of
//! maps: parts, from (key, index) to the part's bytes, and artifacts, from
//! key to the artifact's bytes.  `write_chunk` fully replaces a part's
//! contents — never appends — so retransmitting a chunk is idempotent.

use vstd::prelude::*;
use vstd::string::StrSliceExecFns;
use vstd::string::StringExecFns;

verus! {

/// One stored part: the bytes of chunk `index` of upload `key`.
pub struct PartEntry {
    /// The upload key the part belongs to.
    pub key: String,
    /// 0-based chunk index of the part.
    pub index: usize,
    /// The part's bytes.
    pub data: Vec<u8>,
}

/// One finalized artifact.
pub struct FinalEntry {
    /// The upload key the artifact was reassembled for.
    pub key: String,
    /// The artifact's bytes.
    pub data: Vec<u8>,
}

/// Entry `j` of `s` holds the part of upload `key` at chunk index `i`.
pub open spec fn match_at(s: Seq<PartEntry>, key: Seq<char>, i: int, j: int) -> bool {
    0 <= j < s.len() && s[j].key@ == key && s[j].index as int == i
}

/// No two entries claim the same (key, index) pair.
pub open spec fn distinct_parts(s: Seq<PartEntry>) -> bool {
    forall|j: int, k: int|
        0 <= j < k < s.len() ==> !(#[trigger] s[j].key@ == #[trigger] s[k].key@
            && s[j].index == s[k].index)
}

/// Some entry holds the part of upload `key` at index `i`.
pub open spec fn has_part(s: Seq<PartEntry>, key: Seq<char>, i: int) -> bool {
    exists|j: int| match_at(s, key, i, j)
}

/// The bytes of the part of upload `key` at index `i`.
pub open spec fn part_at(s: Seq<PartEntry>, key: Seq<char>, i: int) -> Seq<u8> {
    s[choose|j: int| match_at(s, key, i, j)].data@
}

/// The map view of a sequence of part entries.
pub open spec fn parts_map_of(s: Seq<PartEntry>) -> Map<(Seq<char>, int), Seq<u8>> {
    Map::new(
        |p: (Seq<char>, int)| has_part(s, p.0, p.1),
        |p: (Seq<char>, int)| part_at(s, p.0, p.1),
    )
}

/// Entry `j` of `s` holds the artifact of upload `key`.
pub open spec fn final_match_at(s: Seq<FinalEntry>, key: Seq<char>, j: int) -> bool {
    0 <= j < s.len() && s[j].key@ == key
}

/// No two entries claim the same upload key.
pub open spec fn distinct_finals(s: Seq<FinalEntry>) -> bool {
    forall|j: int, k: int|
        0 <= j < k < s.len() ==> !(#[trigger] s[j].key@ == #[trigger] s[k].key@)
}

/// Some entry holds the artifact of upload `key`.
pub open spec fn has_final(s: Seq<FinalEntry>, key: Seq<char>) -> bool {
    exists|j: int| final_match_at(s, key, j)
}

/// The bytes of the artifact of upload `key`.
pub open spec fn final_at(s: Seq<FinalEntry>, key: Seq<char>) -> Seq<u8> {
    s[choose|j: int| final_match_at(s, key, j)].data@
}

/// The map view of a sequence of artifact entries.
pub open spec fn finals_map_of(s: Seq<FinalEntry>) -> Map<Seq<char>, Seq<u8>> {
    Map::new(|k: Seq<char>| has_final(s, k), |k: Seq<char>| final_at(s, k))
}

/// With distinct entries, at most one entry holds a given part.
proof fn lemma_match_unique(s: Seq<PartEntry>, key: Seq<char>, i: int, j1: int, j2: int)
    requires
        distinct_parts(s),
        match_at(s, key, i, j1),
        match_at(s, key, i, j2),
    ensures
        j1 == j2,
{
}

/// With distinct entries, the part's bytes are those of any matching entry.
proof fn lemma_part_at_is(s: Seq<PartEntry>, key: Seq<char>, i: int, j: int)
    requires
        distinct_parts(s),
        match_at(s, key, i, j),
    ensures
        part_at(s, key, i) == s[j].data@,
{
    let j0 = choose|j0: int| match_at(s, key, i, j0);
    lemma_match_unique(s, key, i, j, j0);
}

/// With distinct entries, at most one entry holds a given artifact.
proof fn lemma_final_match_unique(s: Seq<FinalEntry>, key: Seq<char>, j1: int, j2: int)
    requires
        distinct_finals(s),
        final_match_at(s, key, j1),
        final_match_at(s, key, j2),
    ensures
        j1 == j2,
{
}

/// With distinct entries, the artifact's bytes are those of any matching entry.
proof fn lemma_final_at_is(s: Seq<FinalEntry>, key: Seq<char>, j: int)
    requires
        distinct_finals(s),
        final_match_at(s, key, j),
    ensures
        final_at(s, key) == s[j].data@,
{
    let j0 = choose|j0: int| final_match_at(s, key, j0);
    lemma_final_match_unique(s, key, j, j0);
}

/// Appending an entry for a part not yet present inserts it into the view.
proof fn lemma_parts_push(s: Seq<PartEntry>, e: PartEntry)
    requires
        distinct_parts(s),
        !has_part(s, e.key@, e.index as int),
    ensures
        distinct_parts(s.push(e)),
        parts_map_of(s.push(e)) == parts_map_of(s).insert((e.key@, e.index as int), e.data@),
{
    let t = s.push(e);
    let p0 = (e.key@, e.index as int);
    assert forall|j: int, k: int| 0 <= j < k < t.len() implies !(t[j].key@ == t[k].key@
        && t[j].index == t[k].index) by {
        if k == s.len() as int {
            assert(t[j] == s[j]);
            assert(t[k] == e);
            if t[j].key@ == e.key@ && t[j].index == e.index {
                assert(match_at(s, e.key@, e.index as int, j));
                assert(false);
            }
        } else {
            assert(t[j] == s[j]);
            assert(t[k] == s[k]);
        }
    }
    let m1 = parts_map_of(t);
    let m2 = parts_map_of(s).insert(p0, e.data@);
    assert forall|p: (Seq<char>, int)| #[trigger] m1.contains_key(p) implies m2.contains_key(p)
        && m1[p] == m2[p] by {
        let j = choose|j: int| match_at(t, p.0, p.1, j);
        assert(match_at(t, p.0, p.1, j));
        lemma_part_at_is(t, p.0, p.1, j);
        if j == s.len() as int {
            assert(t[j] == e);
            assert(p == p0);
        } else {
            assert(t[j] == s[j]);
            assert(match_at(s, p.0, p.1, j));
            assert(p != p0) by {
                if p == p0 {
                    assert(match_at(s, e.key@, e.index as int, j));
                    assert(false);
                }
            }
            lemma_part_at_is(s, p.0, p.1, j);
        }
    }
    assert forall|p: (Seq<char>, int)| #[trigger] m2.contains_key(p) implies m1.contains_key(
        p,
    ) by {
        if p == p0 {
            assert(t[s.len() as int] == e);
            assert(match_at(t, p.0, p.1, s.len() as int));
        } else {
            let j = choose|j: int| match_at(s, p.0, p.1, j);
            assert(match_at(s, p.0, p.1, j));
            assert(t[j] == s[j]);
            assert(match_at(t, p.0, p.1, j));
        }
    }
    assert(m1 =~= m2);
}

/// Removing entry `j` removes exactly its part from the view.
proof fn lemma_parts_remove(s: Seq<PartEntry>, j: int)
    requires
        distinct_parts(s),
        0 <= j < s.len(),
    ensures
        distinct_parts(s.remove(j)),
        parts_map_of(s.remove(j)) == parts_map_of(s).remove((s[j].key@, s[j].index as int)),
{
    let t = s.remove(j);
    let p0 = (s[j].key@, s[j].index as int);
    s.remove_ensures(j);
    assert forall|a: int, b: int| 0 <= a < b < t.len() implies !(t[a].key@ == t[b].key@
        && t[a].index == t[b].index) by {
        let a2 = if a < j {
            a
        } else {
            a + 1
        };
        let b2 = if b < j {
            b
        } else {
            b + 1
        };
        assert(t[a] == s[a2]);
        assert(t[b] == s[b2]);
    }
    let m1 = parts_map_of(t);
    let m2 = parts_map_of(s).remove(p0);
    assert forall|p: (Seq<char>, int)| #[trigger] m1.contains_key(p) implies m2.contains_key(p)
        && m1[p] == m2[p] by {
        let k = choose|k: int| match_at(t, p.0, p.1, k);
        assert(match_at(t, p.0, p.1, k));
        lemma_part_at_is(t, p.0, p.1, k);
        let k2 = if k < j {
            k
        } else {
            k + 1
        };
        assert(t[k] == s[k2]);
        assert(match_at(s, p.0, p.1, k2));
        lemma_part_at_is(s, p.0, p.1, k2);
        assert(p != p0) by {
            if p == p0 {
                lemma_match_unique(s, p.0, p.1, k2, j);
                assert(false);
            }
        }
    }
    assert forall|p: (Seq<char>, int)| #[trigger] m2.contains_key(p) implies m1.contains_key(
        p,
    ) by {
        let k = choose|k: int| match_at(s, p.0, p.1, k);
        assert(match_at(s, p.0, p.1, k));
        assert(k != j) by {
            if k == j {
                assert(p == p0);
                assert(false);
            }
        }
        if k < j {
            assert(t[k] == s[k]);
            assert(match_at(t, p.0, p.1, k));
        } else {
            assert(t[k - 1] == s[k]);
            assert(match_at(t, p.0, p.1, k - 1));
        }
    }
    assert(m1 =~= m2);
}

/// Appending an artifact entry for a key not yet present inserts it.
proof fn lemma_finals_push(s: Seq<FinalEntry>, e: FinalEntry)
    requires
        distinct_finals(s),
        !has_final(s, e.key@),
    ensures
        distinct_finals(s.push(e)),
        finals_map_of(s.push(e)) == finals_map_of(s).insert(e.key@, e.data@),
{
    let t = s.push(e);
    assert forall|j: int, k: int| 0 <= j < k < t.len() implies !(t[j].key@ == t[k].key@) by {
        if k == s.len() as int {
            assert(t[j] == s[j]);
            assert(t[k] == e);
            if t[j].key@ == e.key@ {
                assert(final_match_at(s, e.key@, j));
                assert(false);
            }
        } else {
            assert(t[j] == s[j]);
            assert(t[k] == s[k]);
        }
    }
    let m1 = finals_map_of(t);
    let m2 = finals_map_of(s).insert(e.key@, e.data@);
    assert forall|p: Seq<char>| #[trigger] m1.contains_key(p) implies m2.contains_key(p) && m1[p]
        == m2[p] by {
        let j = choose|j: int| final_match_at(t, p, j);
        assert(final_match_at(t, p, j));
        lemma_final_at_is(t, p, j);
        if j == s.len() as int {
            assert(t[j] == e);
        } else {
            assert(t[j] == s[j]);
            assert(final_match_at(s, p, j));
            assert(p != e.key@) by {
                if p == e.key@ {
                    assert(final_match_at(s, e.key@, j));
                    assert(false);
                }
            }
            lemma_final_at_is(s, p, j);
        }
    }
    assert forall|p: Seq<char>| #[trigger] m2.contains_key(p) implies m1.contains_key(p) by {
        if p == e.key@ {
            assert(t[s.len() as int] == e);
            assert(final_match_at(t, p, s.len() as int));
        } else {
            let j = choose|j: int| final_match_at(s, p, j);
            assert(final_match_at(s, p, j));
            assert(t[j] == s[j]);
            assert(final_match_at(t, p, j));
        }
    }
    assert(m1 =~= m2);
}

/// Removing artifact entry `j` removes exactly its key from the view.
proof fn lemma_finals_remove(s: Seq<FinalEntry>, j: int)
    requires
        distinct_finals(s),
        0 <= j < s.len(),
    ensures
        distinct_finals(s.remove(j)),
        finals_map_of(s.remove(j)) == finals_map_of(s).remove(s[j].key@),
{
    let t = s.remove(j);
    let p0 = s[j].key@;
    s.remove_ensures(j);
    assert forall|a: int, b: int| 0 <= a < b < t.len() implies !(t[a].key@ == t[b].key@) by {
        let a2 = if a < j {
            a
        } else {
            a + 1
        };
        let b2 = if b < j {
            b
        } else {
            b + 1
        };
        assert(t[a] == s[a2]);
        assert(t[b] == s[b2]);
    }
    let m1 = finals_map_of(t);
    let m2 = finals_map_of(s).remove(p0);
    assert forall|p: Seq<char>| #[trigger] m1.contains_key(p) implies m2.contains_key(p) && m1[p]
        == m2[p] by {
        let k = choose|k: int| final_match_at(t, p, k);
        assert(final_match_at(t, p, k));
        lemma_final_at_is(t, p, k);
        let k2 = if k < j {
            k
        } else {
            k + 1
        };
        assert(t[k] == s[k2]);
        assert(final_match_at(s, p, k2));
        lemma_final_at_is(s, p, k2);
        assert(p != p0) by {
            if p == p0 {
                lemma_final_match_unique(s, p, k2, j);
                assert(false);
            }
        }
    }
    assert forall|p: Seq<char>| #[trigger] m2.contains_key(p) implies m1.contains_key(p) by {
        let k = choose|k: int| final_match_at(s, p, k);
        assert(final_match_at(s, p, k));
        assert(k != j);
        if k < j {
            assert(t[k] == s[k]);
            assert(final_match_at(t, p, k));
        } else {
            assert(t[k - 1] == s[k]);
            assert(final_match_at(t, p, k - 1));
        }
    }
    assert(m1 =~= m2);
}

/// Character-wise string equality.
pub fn str_eq(a: &str, b: &str) -> (r: bool)
    ensures
        r == (a@ == b@),
{
    let la = a.unicode_len();
    let lb = b.unicode_len();
    if la != lb {
        return false;
    }
    let mut i: usize = 0;
    while i < la
        invariant
            0 <= i <= la,
            la == a@.len(),
            la == b@.len(),
            forall|k: int| 0 <= k < i ==> a@[k] == b@[k],
        decreases la - i,
    {
        if a.get_char(i) != b.get_char(i) {
            return false;
        }
        i = i + 1;
    }
    proof {
        assert(a@ =~= b@);
    }
    true
}

/// The upload directory's state: in-flight parts and finalized artifacts.
pub struct UploadStore {
    parts: Vec<PartEntry>,
    finals: Vec<FinalEntry>,
}

impl UploadStore {
    /// Well-formedness: at most one part per (key, index), at most one
    /// artifact per key.
    pub closed spec fn wf(&self) -> bool {
        distinct_parts(self.parts@) && distinct_finals(self.finals@)
    }

    /// The parts of the store: a map from (key, index) to the part's bytes.
    pub closed spec fn parts_map(&self) -> Map<(Seq<char>, int), Seq<u8>> {
        parts_map_of(self.parts@)
    }

    /// The finalized artifacts of the store: a map from key to bytes.
    pub closed spec fn finals_map(&self) -> Map<Seq<char>, Seq<u8>> {
        finals_map_of(self.finals@)
    }

    /// How many part entries the store holds.
    pub closed spec fn spec_part_count(&self) -> nat {
        self.parts@.len()
    }

    /// An empty upload directory.
    pub fn new() -> (r: UploadStore)
        ensures
            r.wf(),
            r.parts_map() == Map::<(Seq<char>, int), Seq<u8>>::empty(),
            r.finals_map() == Map::<Seq<char>, Seq<u8>>::empty(),
    {
        let r = UploadStore { parts: Vec::new(), finals: Vec::new() };
        proof {
            assert(r.parts_map() =~= Map::<(Seq<char>, int), Seq<u8>>::empty());
            assert(r.finals_map() =~= Map::<Seq<char>, Seq<u8>>::empty());
        }
        r
    }

    /// How many part entries the store holds.
    pub fn part_count(&self) -> (r: usize)
        ensures
            r == self.spec_part_count(),
    {
        self.parts.len()
    }

    /// A contiguous run of stored parts is no longer than the part list:
    /// distinct indices occupy distinct entries.
    pub proof fn lemma_contiguous_bound(&self, key: Seq<char>, n: int)
        requires
            self.wf(),
            n >= 0,
            forall|i: int| 0 <= i < n ==> self.parts_map().contains_key((key, i)),
        ensures
            n <= self.spec_part_count(),
    {
        assert forall|i: int| 0 <= i < n implies has_part(self.parts@, key, i) by {
            assert(self.parts_map().contains_key((key, i)));
        }
        lemma_has_parts_bound(self.parts@, key, n);
    }

    fn find_part(&self, key: &str, index: usize) -> (r: Option<usize>)
        ensures
            match r {
                Option::Some(j) => match_at(self.parts@, key@, index as int, j as int),
                Option::None => !has_part(self.parts@, key@, index as int),
            },
    {
        let n = self.parts.len();
        let mut j: usize = 0;
        while j < n
            invariant
                0 <= j <= n,
                n == self.parts@.len(),
                forall|k: int| 0 <= k < j ==> !(#[trigger] self.parts@[k].key@ == key@
                    && self.parts@[k].index == index),
            decreases n - j,
        {
            let e = &self.parts[j];
            if e.index == index && str_eq(e.key.as_str(), key) {
                return Some(j);
            }
            j = j + 1;
        }
        proof {
            assert forall|k: int| !match_at(self.parts@, key@, index as int, k) by {
                if 0 <= k < self.parts@.len() {
                    assert(!(self.parts@[k].key@ == key@ && self.parts@[k].index == index));
                }
            }
        }
        None
    }

    /// Whether the part for (key, index) is present — the completeness
    /// probe of the reassembler.
    pub fn part_exists(&self, key: &str, index: usize) -> (r: bool)
        ensures
            r == self.parts_map().contains_key((key@, index as int)),
    {
        match self.find_part(key, index) {
            Option::Some(j) => {
                proof {
                    assert(has_part(self.parts@, key@, index as int));
                }
                true
            },
            Option::None => false,
        }
    }

    /// The bytes of the part for (key, index), if present.
    pub fn read_part(&self, key: &str, index: usize) -> (r: Option<&Vec<u8>>)
        requires
            self.wf(),
        ensures
            match r {
                Option::Some(v) => self.parts_map().contains_key((key@, index as int)) && v@
                    == self.parts_map()[(key@, index as int)],
                Option::None => !self.parts_map().contains_key((key@, index as int)),
            },
    {
        match self.find_part(key, index) {
            Option::Some(j) => {
                proof {
                    assert(has_part(self.parts@, key@, index as int));
                    lemma_part_at_is(self.parts@, key@, index as int, j as int);
                }
                Some(&self.parts[j].data)
            },
            Option::None => None,
        }
    }

    /// Stores the bytes of chunk `index` of upload `key`, fully replacing
    /// any part already present for that index (truncate-then-write, the
    /// rule that makes retransmission idempotent).
    pub fn write_chunk(&mut self, key: &str, index: usize, data: Vec<u8>)
        requires
            old(self).wf(),
        ensures
            final(self).wf(),
            final(self).parts_map() == old(self).parts_map().insert((key@, index as int), data@),
            final(self).finals_map() == old(self).finals_map(),
            final(self).spec_part_count() <= old(self).spec_part_count() + 1,
    {
        let ghost d = data@;
        let e = PartEntry { key: String::from_str(key), index, data };
        let found = self.find_part(key, index);
        match found {
            Option::Some(j) => {
                let ghost s0 = self.parts@;
                let _old_entry = self.parts.remove(j);
                proof {
                    lemma_parts_remove(s0, j as int);
                    assert((s0[j as int].key@, s0[j as int].index as int) == (
                    key@,
                    index as int,
                    ));
                    assert(!parts_map_of(self.parts@).contains_key((key@, index as int)));
                    assert(!has_part(self.parts@, e.key@, e.index as int));
                    lemma_parts_push(self.parts@, e);
                    assert(parts_map_of(s0).remove((key@, index as int)).insert(
                        (key@, index as int),
                        d,
                    ) =~= parts_map_of(s0).insert((key@, index as int), d));
                }
                self.parts.push(e);
            },
            Option::None => {
                proof {
                    lemma_parts_push(self.parts@, e);
                }
                self.parts.push(e);
            },
        }
    }

    /// Deletes the part for (key, index) if present — the cleanup step of
    /// the reassembler.
    pub fn remove_part(&mut self, key: &str, index: usize)
        requires
            old(self).wf(),
        ensures
            final(self).wf(),
            final(self).parts_map() == old(self).parts_map().remove((key@, index as int)),
            final(self).finals_map() == old(self).finals_map(),
    {
        let found = self.find_part(key, index);
        match found {
            Option::Some(j) => {
                let ghost s0 = self.parts@;
                let _old_entry = self.parts.remove(j);
                proof {
                    lemma_parts_remove(s0, j as int);
                    assert((s0[j as int].key@, s0[j as int].index as int) == (
                    key@,
                    index as int,
                    ));
                }
            },
            Option::None => {
                proof {
                    assert(!self.parts_map().contains_key((key@, index as int)));
                    assert(self.parts_map() =~= self.parts_map().remove((key@, index as int)));
                }
            },
        }
    }

    fn find_final(&self, key: &str) -> (r: Option<usize>)
        ensures
            match r {
                Option::Some(j) => final_match_at(self.finals@, key@, j as int),
                Option::None => !has_final(self.finals@, key@),
            },
    {
        let n = self.finals.len();
        let mut j: usize = 0;
        while j < n
            invariant
                0 <= j <= n,
                n == self.finals@.len(),
                forall|k: int| 0 <= k < j ==> !(#[trigger] self.finals@[k].key@ == key@),
            decreases n - j,
        {
            let e = &self.finals[j];
            if str_eq(e.key.as_str(), key) {
                return Some(j);
            }
            j = j + 1;
        }
        proof {
            assert forall|k: int| !final_match_at(self.finals@, key@, k) by {
                if 0 <= k < self.finals@.len() {
                    assert(!(self.finals@[k].key@ == key@));
                }
            }
        }
        None
    }

    /// Records the finalized artifact for `key`, replacing any earlier one
    /// (the final file is created anew, truncating what was there).
    pub fn put_final(&mut self, key: &str, data: Vec<u8>)
        requires
            old(self).wf(),
        ensures
            final(self).wf(),
            final(self).finals_map() == old(self).finals_map().insert(key@, data@),
            final(self).parts_map() == old(self).parts_map(),
    {
        let ghost d = data@;
        let e = FinalEntry { key: String::from_str(key), data };
        let found = self.find_final(key);
        match found {
            Option::Some(j) => {
                let ghost s0 = self.finals@;
                let _old_entry = self.finals.remove(j);
                proof {
                    lemma_finals_remove(s0, j as int);
                    assert(!finals_map_of(self.finals@).contains_key(key@));
                    assert(!has_final(self.finals@, e.key@));
                    lemma_finals_push(self.finals@, e);
                    assert(finals_map_of(s0).remove(key@).insert(key@, d) =~= finals_map_of(
                        s0,
                    ).insert(key@, d));
                }
                self.finals.push(e);
            },
            Option::None => {
                proof {
                    lemma_finals_push(self.finals@, e);
                }
                self.finals.push(e);
            },
        }
    }

    /// The finalized artifact for `key`, if one was produced.
    pub fn artifact(&self, key: &str) -> (r: Option<&Vec<u8>>)
        requires
            self.wf(),
        ensures
            match r {
                Option::Some(v) => self.finals_map().contains_key(key@) && v@
                    == self.finals_map()[key@],
                Option::None => !self.finals_map().contains_key(key@),
            },
    {
        match self.find_final(key) {
            Option::Some(j) => {
                proof {
                    assert(has_final(self.finals@, key@));
                    lemma_final_at_is(self.finals@, key@, j as int);
                }
                Some(&self.finals[j].data)
            },
            Option::None => None,
        }
    }
}

/// Pigeonhole: `n` parts of one key at the distinct indices `0..n` occupy
/// `n` distinct entries.
proof fn lemma_has_parts_bound(s: Seq<PartEntry>, key: Seq<char>, n: int)
    requires
        distinct_parts(s),
        n >= 0,
        forall|i: int| 0 <= i < n ==> has_part(s, key, i),
    ensures
        n <= s.len(),
    decreases n,
{
    if n > 0 {
        let last = n - 1;
        assert(has_part(s, key, last));
        let j = choose|j: int| match_at(s, key, last, j);
        assert(match_at(s, key, last, j));
        let t = s.remove(j);
        s.remove_ensures(j);
        assert forall|a: int, b: int| 0 <= a < b < t.len() implies !(t[a].key@ == t[b].key@
            && t[a].index == t[b].index) by {
            let a2 = if a < j {
                a
            } else {
                a + 1
            };
            let b2 = if b < j {
                b
            } else {
                b + 1
            };
            assert(t[a] == s[a2]);
            assert(t[b] == s[b2]);
        }
        assert forall|i: int| 0 <= i < n - 1 implies has_part(t, key, i) by {
            assert(has_part(s, key, i));
            let k = choose|k: int| match_at(s, key, i, k);
            assert(match_at(s, key, i, k));
            assert(k != j);
            if k < j {
                assert(t[k] == s[k]);
                assert(match_at(t, key, i, k));
            } else {
                assert(t[k - 1] == s[k]);
                assert(match_at(t, key, i, k - 1));
            }
        }
        lemma_has_parts_bound(t, key, n - 1);
    }
}

} // verus!
