//! Case-insensitive substring matching on names.

use vstd::prelude::*;

verus! {

/// The character sequence that `str::to_lowercase` yields for `s`.  The full
/// Unicode lowercase mapping is too large to restate; the name only fixes
/// that the mapping depends on the characters of `s` alone.
pub uninterp spec fn lower_of(s: Seq<char>) -> Seq<char>;

/// Relies on `str::to_lowercase`: the result is the lowercase mapping of the
/// input's characters alone, and an empty input yields an empty result.
#[verifier::external_body]
pub fn lowercase(s: &str) -> (r: String)
    ensures
        r@ == lower_of(s@),
        s@.len() == 0 ==> r@.len() == 0,
{
    s.to_lowercase()
}

/// `pat` occurs in `hay` starting at position `i`.
pub open spec fn occurs_at(hay: Seq<char>, pat: Seq<char>, i: int) -> bool {
    0 <= i && i + pat.len() <= hay.len() && hay.subrange(i, i + pat.len() as int) == pat
}

/// `pat` occurs somewhere in `hay`.
pub open spec fn contains_sub(hay: Seq<char>, pat: Seq<char>) -> bool {
    exists|i: int| occurs_at(hay, pat, i)
}

/// An empty pattern occurs in every sequence.
pub proof fn lemma_empty_pattern(hay: Seq<char>, pat: Seq<char>)
    requires
        pat.len() == 0,
    ensures
        contains_sub(hay, pat),
{
    assert(hay.subrange(0, 0) =~= pat);
    assert(occurs_at(hay, pat, 0));
}

/// `name` matches the (already lowercased) search pattern `pat`.
pub open spec fn matches_name(name: Seq<char>, pat: Seq<char>) -> bool {
    contains_sub(lower_of(name), pat)
}

/// Whether `pat` occurs in `hay` starting at `i`, by character comparison.
fn match_at(hay: &str, pat: &str, i: usize) -> (r: bool)
    requires
        i + pat@.len() <= hay@.len(),
        hay@.len() <= usize::MAX,
    ensures
        r == occurs_at(hay@, pat@, i as int),
{
    let m: usize = pat.unicode_len();
    let mut j: usize = 0;
    while j < m
        invariant
            j <= m,
            m == pat@.len(),
            i + m <= hay@.len() <= usize::MAX,
            forall|t: int| 0 <= t < j ==> hay@[i + t] == pat@[t],
        decreases m - j,
    {
        if hay.get_char(i + j) != pat.get_char(j) {
            assert(!occurs_at(hay@, pat@, i as int)) by {
                if occurs_at(hay@, pat@, i as int) {
                    assert(hay@.subrange(i as int, i + m)[j as int] == pat@[j as int]);
                }
            }
            return false;
        }
        j += 1;
    }
    assert(hay@.subrange(i as int, i + m) =~= pat@);
    true
}

/// Substring test: whether `pat` occurs anywhere in `hay`.
pub fn contains_substring(hay: &str, pat: &str) -> (r: bool)
    ensures
        r == contains_sub(hay@, pat@),
{
    let n: usize = hay.unicode_len();
    let m: usize = pat.unicode_len();
    if m == 0 {
        proof {
            lemma_empty_pattern(hay@, pat@);
        }
        return true;
    }
    if m > n {
        assert(forall|i: int| !occurs_at(hay@, pat@, i));
        return false;
    }
    let mut i: usize = 0;
    while i <= n - m
        invariant
            0 < m <= n,
            n == hay@.len(),
            m == pat@.len(),
            i <= n - m + 1,
            forall|k: int| 0 <= k < i ==> !occurs_at(hay@, pat@, k),
        decreases n - m - i + 1,
    {
        if match_at(hay, pat, i) {
            assert(contains_sub(hay@, pat@));
            return true;
        }
        i += 1;
    }
    assert(forall|k: int| !occurs_at(hay@, pat@, k)) by {
        assert(forall|k: int| occurs_at(hay@, pat@, k) ==> 0 <= k < i);
    }
    false
}

/// Whether `name` matches the lowered pattern `pat`, lowercasing `name` first.
pub fn name_matches(name: &str, pat: &str) -> (r: bool)
    ensures
        r == matches_name(name@, pat@),
{
    let low = lowercase(name);
    contains_substring(low.as_str(), pat)
}

} // verus!
