//! Locating the first adjacent pair of values in a sequence, used for the
//! `<~` and `~>` delimiters of the envelope format.

use vstd::prelude::*;

verus! {

/// The index of the first position where `a` is immediately followed by
/// `b` in `s`, if there is one.
pub open spec fn find_pair<T>(s: Seq<T>, a: T, b: T) -> Option<int>
    decreases s.len(),
{
    if s.len() < 2 {
        None
    } else if s[0] == a && s[1] == b {
        Some(0)
    } else {
        match find_pair(s.skip(1), a, b) {
            Some(i) => Some(i + 1),
            None => None,
        }
    }
}

/// If no adjacent pair matches anywhere, the search fails.
pub proof fn lemma_find_pair_none<T>(s: Seq<T>, a: T, b: T)
    requires
        forall|k: int| 0 <= k < s.len() - 1 ==> !(#[trigger] s[k] == a && s[k + 1] == b),
    ensures
        find_pair(s, a, b) is None,
    decreases s.len(),
{
    if s.len() >= 2 {
        assert(forall|k: int|
            #![trigger s.skip(1)[k]]
            0 <= k < s.skip(1).len() - 1 ==> s.skip(1)[k] == s[k + 1] && s.skip(1)[k + 1] == s[k
                + 2]);
        lemma_find_pair_none(s.skip(1), a, b);
    }
}

/// If a pair matches at `n` and none does earlier, the search returns `n`.
pub proof fn lemma_find_pair_at<T>(s: Seq<T>, a: T, b: T, n: int)
    requires
        0 <= n,
        n + 2 <= s.len(),
        s[n] == a && s[n + 1] == b,
        forall|k: int| 0 <= k < n ==> !(#[trigger] s[k] == a && s[k + 1] == b),
    ensures
        find_pair(s, a, b) == Some(n),
    decreases n,
{
    if n > 0 {
        assert(forall|k: int|
            #![trigger s.skip(1)[k]]
            0 <= k < s.skip(1).len() ==> s.skip(1)[k] == s[k + 1]);
        lemma_find_pair_at(s.skip(1), a, b, n - 1);
    }
}

} // verus!
