//! Chunk identity resolution.
//!
//! Each request carries its upload key and positional metadata as plain
//! strings.  `resolve_identity` extracts the key (empty if absent — callers
//! must treat an empty key as an error) and parses the chunk index and the
//! declared total chunk count, both defaulting to zero when absent.  A
//! malformed numeric field is an explicit `BadRequest`, never a silent
//! default and never a panic.

use vstd::prelude::*;
use vstd::string::StrSliceExecFns;
use vstd::string::StringExecFns;
use crate::naming::is_dec_digit;
use crate::UploadError;

verus! {

/// The numeric value of one digit character.
pub open spec fn digit_val(c: char) -> nat {
    (c as int - '0' as int) as nat
}

/// Every character of the sequence is a decimal digit.
pub open spec fn all_digits(s: Seq<char>) -> bool {
    forall|i: int| 0 <= i < s.len() ==> is_dec_digit(#[trigger] s[i])
}

/// The value of a digit sequence read as a decimal number.
pub open spec fn dec_value(s: Seq<char>) -> nat
    decreases s.len(),
{
    if s.len() == 0 {
        0
    } else {
        dec_value(s.drop_last()) * 10 + digit_val(s.last())
    }
}

/// A string is a well-formed numeric field when it is nonempty, all
/// digits, and its value fits the machine's word.
pub open spec fn is_valid_count(s: Seq<char>) -> bool {
    s.len() > 0 && all_digits(s) && dec_value(s) <= usize::MAX
}

/// Reading one more character multiplies the prefix value by ten and adds
/// the digit.
proof fn lemma_dec_value_step(s: Seq<char>, i: int)
    requires
        0 <= i < s.len(),
    ensures
        dec_value(s.take(i + 1)) == dec_value(s.take(i)) * 10 + digit_val(s[i]),
{
    assert(s.take(i + 1).drop_last() =~= s.take(i));
    assert(s.take(i + 1).last() == s[i]);
}

/// The decimal value of a prefix never exceeds that of a longer prefix.
proof fn lemma_dec_value_prefix_le(s: Seq<char>, i: int, j: int)
    requires
        0 <= i <= j <= s.len(),
    ensures
        dec_value(s.take(i)) <= dec_value(s.take(j)),
    decreases j - i,
{
    if i < j {
        lemma_dec_value_prefix_le(s, i, j - 1);
        lemma_dec_value_step(s, j - 1);
    }
}

/// Parses a nonempty all-digit string as a decimal number.  Returns `None`
/// exactly when the string is empty, contains a non-digit, or encodes a
/// value too large for the machine's word.
pub fn parse_usize(s: &str) -> (r: Option<usize>)
    ensures
        r is Some <==> is_valid_count(s@),
        is_valid_count(s@) ==> r == Some(dec_value(s@) as usize),
{
    let len = s.unicode_len();
    if len == 0 {
        return None;
    }
    let mut i: usize = 0;
    let mut acc: usize = 0;
    while i < len
        invariant
            0 <= i <= len,
            len == s@.len(),
            all_digits(s@.take(i as int)),
            acc == dec_value(s@.take(i as int)),
        decreases len - i,
    {
        let c = s.get_char(i);
        let v = c as u32;
        if v < 48 || v > 57 {
            proof {
                assert(!is_dec_digit(s@[i as int]));
            }
            return None;
        }
        let d = (v - 48) as usize;
        proof {
            lemma_dec_value_step(s@, i as int);
            assert(digit_val(s@[i as int]) == d);
        }
        if acc > usize::MAX / 10 || (acc == usize::MAX / 10 && d > usize::MAX % 10) {
            proof {
                assert(dec_value(s@.take(i + 1)) > usize::MAX);
                lemma_dec_value_prefix_le(s@, i + 1, s@.len() as int);
                assert(s@.take(s@.len() as int) =~= s@);
                assert(dec_value(s@) > usize::MAX);
            }
            return None;
        }
        acc = acc * 10 + d;
        i = i + 1;
        proof {
            assert(s@.take(i as int).drop_last() =~= s@.take(i - 1));
        }
    }
    proof {
        assert(s@.take(len as int) =~= s@);
    }
    Some(acc)
}

/// The logical upload key carried by a request: the file name, or empty
/// when the header is absent.
pub open spec fn key_of(h: Option<&str>) -> Seq<char> {
    match h {
        Option::Some(s) => s@,
        Option::None => Seq::empty(),
    }
}

/// An absent numeric field is acceptable (it defaults to zero); a present
/// one must be a well-formed count.
pub open spec fn numeric_field_ok(h: Option<&str>) -> bool {
    match h {
        Option::Some(s) => is_valid_count(s@),
        Option::None => true,
    }
}

/// The value of a numeric field, zero when absent.
pub open spec fn numeric_field_value(h: Option<&str>) -> nat {
    match h {
        Option::Some(s) => dec_value(s@),
        Option::None => 0,
    }
}

/// The identity of one incoming chunk: the upload key and the positional
/// metadata declared by the client.
pub struct UploadInfo {
    /// The upload key: the file name under which the chunks are grouped.
    pub filename: String,
    /// 0-based position of this chunk within the upload.
    pub chunk_index: usize,
    /// The total number of chunks the client declared for this upload.
    pub total_chunk: usize,
}

/// Derives the upload identity from request metadata.  No side effects.
/// Fails with `BadRequest` exactly when a present numeric field is
/// malformed; an absent key yields the empty string, which callers must
/// reject before storing anything.
pub fn resolve_identity(
    file_name: Option<&str>,
    chunk_index: Option<&str>,
    total_chunks: Option<&str>,
) -> (r: Result<UploadInfo, UploadError>)
    ensures
        r is Ok <==> numeric_field_ok(chunk_index) && numeric_field_ok(total_chunks),
        r matches Ok(info) ==> {
            &&& info.filename@ == key_of(file_name)
            &&& info.chunk_index as nat == numeric_field_value(chunk_index)
            &&& info.total_chunk as nat == numeric_field_value(total_chunks)
        },
        r is Err ==> r == Err::<UploadInfo, UploadError>(UploadError::BadRequest),
{
    let filename = match file_name {
        Option::Some(s) => String::from_str(s),
        Option::None => String::new(),
    };
    let parsed_index: usize = match chunk_index {
        Option::Some(s) => match parse_usize(s) {
            Option::Some(n) => n,
            Option::None => {
                return Err(UploadError::BadRequest);
            },
        },
        Option::None => 0,
    };
    let parsed_total: usize = match total_chunks {
        Option::Some(s) => match parse_usize(s) {
            Option::Some(n) => n,
            Option::None => {
                return Err(UploadError::BadRequest);
            },
        },
        Option::None => 0,
    };
    Ok(UploadInfo { filename, chunk_index: parsed_index, total_chunk: parsed_total })
}

} // verus!
