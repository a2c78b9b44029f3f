//! Deterministic part-file naming.
//!
//! A part file's name is a pure function of the upload key and the 0-based
//! chunk index: `<index>_<key>.part`.  The index is rendered in decimal.
//! `lemma_part_name_injective` shows the scheme is collision-free: two
//! distinct (key, index) pairs never share a name, so one part file exists
//! per index and unrelated chunks are never conflated.

use vstd::prelude::*;
use vstd::string::StringExecFns;

verus! {

/// A decimal digit character.
pub open spec fn is_dec_digit(c: char) -> bool {
    '0' <= c && c <= '9'
}

/// The character for one digit value.
pub open spec fn digit_char(d: nat) -> char {
    if d == 0 {
        '0'
    } else if d == 1 {
        '1'
    } else if d == 2 {
        '2'
    } else if d == 3 {
        '3'
    } else if d == 4 {
        '4'
    } else if d == 5 {
        '5'
    } else if d == 6 {
        '6'
    } else if d == 7 {
        '7'
    } else if d == 8 {
        '8'
    } else {
        '9'
    }
}

/// The decimal rendering of a natural number, without leading zeros
/// (except for the number zero itself).
pub open spec fn dec_str(n: nat) -> Seq<char>
    decreases n,
{
    if n < 10 {
        seq![digit_char(n)]
    } else {
        dec_str(n / 10) + seq![digit_char(n % 10)]
    }
}

/// The on-disk name of the part holding chunk `index` of upload `key`:
/// `<index>_<key>.part`.
pub open spec fn part_name(key: Seq<char>, index: nat) -> Seq<char> {
    dec_str(index) + seq!['_'] + key + seq!['.', 'p', 'a', 'r', 't']
}

/// Every character of a decimal rendering is a digit.
proof fn lemma_dec_str_digits(n: nat)
    ensures
        forall|i: int| 0 <= i < dec_str(n).len() ==> is_dec_digit(#[trigger] dec_str(n)[i]),
    decreases n,
{
    if n < 10 {
        assert(dec_str(n)[0] == digit_char(n));
    } else {
        lemma_dec_str_digits(n / 10);
        let s = dec_str(n);
        let p = dec_str(n / 10);
        assert forall|i: int| 0 <= i < s.len() implies is_dec_digit(s[i]) by {
            if i < p.len() {
                assert(s[i] == p[i]);
            } else {
                assert(s[i] == digit_char(n % 10));
            }
        }
    }
}

/// A decimal rendering is nonempty, and has one character exactly for
/// numbers below ten.
proof fn lemma_dec_str_len(n: nat)
    ensures
        dec_str(n).len() >= 1,
        n < 10 <==> dec_str(n).len() == 1,
    decreases n,
{
    if n >= 10 {
        lemma_dec_str_len(n / 10);
    }
}

/// Decimal rendering is injective.
proof fn lemma_dec_str_injective(a: nat, b: nat)
    requires
        dec_str(a) == dec_str(b),
    ensures
        a == b,
    decreases a,
{
    lemma_dec_str_len(a);
    lemma_dec_str_len(b);
    if a < 10 && b < 10 {
        assert(dec_str(a)[0] == digit_char(a));
        assert(dec_str(b)[0] == digit_char(b));
        assert(digit_char(a) == digit_char(b));
    } else {
        assert(a >= 10 && b >= 10);
        let sa = dec_str(a);
        let sb = dec_str(b);
        assert(sa.last() == sb.last());
        assert(digit_char(a % 10) == digit_char(b % 10));
        assert(a % 10 == b % 10);
        assert(sa.drop_last() =~= dec_str(a / 10));
        assert(sb.drop_last() =~= dec_str(b / 10));
        lemma_dec_str_injective(a / 10, b / 10);
    }
}

/// Collision freedom of the naming scheme: equal part names come only from
/// the same upload key and the same chunk index, even when keys themselves
/// contain digits or underscores.
pub proof fn lemma_part_name_injective(k1: Seq<char>, i1: nat, k2: Seq<char>, i2: nat)
    requires
        part_name(k1, i1) == part_name(k2, i2),
    ensures
        k1 == k2,
        i1 == i2,
{
    let d1 = dec_str(i1);
    let d2 = dec_str(i2);
    let n1 = part_name(k1, i1);
    let n2 = part_name(k2, i2);
    lemma_dec_str_digits(i1);
    lemma_dec_str_digits(i2);
    lemma_dec_str_len(i1);
    lemma_dec_str_len(i2);
    // The renderings have the same length: otherwise the shorter one's
    // terminating '_' would stand where the longer one still has a digit.
    if d1.len() < d2.len() {
        assert(n1[d1.len() as int] == '_');
        assert(n2[d1.len() as int] == d2[d1.len() as int]);
        assert(is_dec_digit(d2[d1.len() as int]));
        assert(false);
    }
    if d2.len() < d1.len() {
        assert(n2[d2.len() as int] == '_');
        assert(n1[d2.len() as int] == d1[d2.len() as int]);
        assert(is_dec_digit(d1[d2.len() as int]));
        assert(false);
    }
    assert(d1.len() == d2.len());
    assert forall|i: int| 0 <= i < d1.len() implies d1[i] == d2[i] by {
        assert(n1[i] == d1[i]);
        assert(n2[i] == d2[i]);
    }
    assert(d1 =~= d2);
    lemma_dec_str_injective(i1, i2);
    assert(n1.len() == d1.len() + 1 + k1.len() + 5);
    assert(n2.len() == d2.len() + 1 + k2.len() + 5);
    assert(k1.len() == k2.len());
    assert forall|i: int| 0 <= i < k1.len() implies k1[i] == k2[i] by {
        assert(n1[d1.len() + 1 + i] == k1[i]);
        assert(n2[d2.len() + 1 + i] == k2[i]);
    }
    assert(k1 =~= k2);
}

/// One decimal digit as a string slice.
fn digit_str(d: usize) -> (r: &'static str)
    requires
        d < 10,
    ensures
        r@ == seq![digit_char(d as nat)],
{
    let r: &'static str = if d == 0 {
        "0"
    } else if d == 1 {
        "1"
    } else if d == 2 {
        "2"
    } else if d == 3 {
        "3"
    } else if d == 4 {
        "4"
    } else if d == 5 {
        "5"
    } else if d == 6 {
        "6"
    } else if d == 7 {
        "7"
    } else if d == 8 {
        "8"
    } else {
        "9"
    };
    proof {
        reveal_strlit("0");
        reveal_strlit("1");
        reveal_strlit("2");
        reveal_strlit("3");
        reveal_strlit("4");
        reveal_strlit("5");
        reveal_strlit("6");
        reveal_strlit("7");
        reveal_strlit("8");
        reveal_strlit("9");
        assert(r@ =~= seq![digit_char(d as nat)]);
    }
    r
}

/// Renders a number in decimal.
pub fn usize_to_string(n: usize) -> (r: String)
    ensures
        r@ == dec_str(n as nat),
    decreases n,
{
    if n < 10 {
        String::from_str(digit_str(n))
    } else {
        let mut s = usize_to_string(n / 10);
        s.append(digit_str(n % 10));
        s
    }
}

/// Builds the part-file name `<index>_<key>.part` for one chunk.
pub fn part_file_name(key: &str, index: usize) -> (r: String)
    ensures
        r@ == part_name(key@, index as nat),
{
    let mut s = usize_to_string(index);
    s.append("_");
    s.append(key);
    s.append(".part");
    proof {
        reveal_strlit("_");
        reveal_strlit(".part");
        assert(("_")@ =~= seq!['_']);
        assert((".part")@ =~= seq!['.', 'p', 'a', 'r', 't']);
        assert(s@ =~= part_name(key@, index as nat));
    }
    s
}

} // verus!
