//! Substring containment on character sequences, and its executable search.
//!
//! Name search over the catalog is a plain "contains" pattern match, so this
//! is the whole of its theory: a pattern occurs in a text when some window of
//! the text equals it. The empty pattern occurs in every text.

use vstd::prelude::*;
use vstd::string::StrSliceExecFns;

verus! {

/// `needle` occurs as a contiguous run of characters inside `hay`.
pub open spec fn contains_substr(hay: Seq<char>, needle: Seq<char>) -> bool {
    exists|i: int|
        0 <= i && i + needle.len() <= hay.len() && #[trigger] hay.subrange(
            i,
            i + needle.len() as int,
        ) == needle
}

/// Whether `needle` matches `hay` at position `i` exactly.
spec fn matches_at(hay: Seq<char>, needle: Seq<char>, i: int) -> bool {
    0 <= i && i + needle.len() <= hay.len() && hay.subrange(i, i + needle.len() as int) == needle
}

/// Decides whether `needle` occurs inside `hay`.
pub fn str_contains(hay: &str, needle: &str) -> (r: bool)
    ensures
        r == contains_substr(hay@, needle@),
{
    let hay_len = hay.unicode_len();
    let needle_len = needle.unicode_len();
    if needle_len > hay_len {
        assert(!contains_substr(hay@, needle@));
        return false;
    }
    if needle_len == 0 {
        proof {
            assert(hay@.subrange(0, 0 + needle@.len() as int) =~= needle@);
        }
        return true;
    }
    let mut i: usize = 0;
    while i <= hay_len - needle_len
        invariant
            0 < needle_len <= hay_len,
            hay_len == hay@.len(),
            needle_len == needle@.len(),
            i <= hay_len - needle_len + 1,
            forall|k: int|
                0 <= k < i ==> #[trigger] hay@.subrange(k, k + needle@.len() as int) != needle@,
        decreases hay_len - needle_len - i + 1,
    {
        let mut j: usize = 0;
        let mut mismatch = false;
        while j < needle_len
            invariant
                needle_len <= hay_len,
                hay_len == hay@.len(),
                needle_len == needle@.len(),
                i + needle_len <= hay_len,
                j <= needle_len,
                !mismatch ==> forall|t: int| 0 <= t < j ==> hay@[i + t] == needle@[t],
                mismatch ==> !matches_at(hay@, needle@, i as int),
            decreases needle_len - j,
        {
            if hay.get_char(i + j) != needle.get_char(j) {
                proof {
                    if matches_at(hay@, needle@, i as int) {
                        assert(hay@.subrange(i as int, i + needle@.len() as int)[j as int]
                            == hay@[i + j]);
                    }
                }
                mismatch = true;
                j = needle_len;
            } else {
                j = j + 1;
            }
        }
        if !mismatch {
            proof {
                assert(hay@.subrange(i as int, i + needle@.len() as int) =~= needle@);
            }
            return true;
        }
        proof {
            assert(hay@.subrange(i as int, i + needle@.len() as int) != needle@);
        }
        i = i + 1;
    }
    false
}

} // verus!
