//! Text comparison and matching.
//!
//! Listings that order by a text column use the lexicographic order
//! on code points — the order a binary collation gives UTF-8 encoded
//! text.  The patient search folds the ASCII uppercase letters onto
//! the lowercase ones and looks for the query anywhere in the field,
//! the way a `LIKE '%query%'` filter reads text.

use vstd::prelude::*;

verus! {

/// Lexicographic order on texts, by code point.
pub open spec fn text_le(a: Seq<char>, b: Seq<char>) -> bool
    decreases a.len(),
{
    if a.len() == 0 {
        true
    } else if b.len() == 0 {
        false
    } else if a[0] != b[0] {
        (a[0] as int) < (b[0] as int)
    } else {
        text_le(a.drop_first(), b.drop_first())
    }
}

/// Every text compares no later than itself.
pub proof fn lemma_text_le_refl(a: Seq<char>)
    ensures
        text_le(a, a),
    decreases a.len(),
{
    if a.len() > 0 {
        lemma_text_le_refl(a.drop_first());
    }
}

/// Any two texts compare one way or the other.
pub proof fn lemma_text_le_total(a: Seq<char>, b: Seq<char>)
    ensures
        text_le(a, b) || text_le(b, a),
    decreases a.len(),
{
    if a.len() > 0 && b.len() > 0 && a[0] == b[0] {
        lemma_text_le_total(a.drop_first(), b.drop_first());
    }
}

/// The order chains.
pub proof fn lemma_text_le_trans(a: Seq<char>, b: Seq<char>, c: Seq<char>)
    requires
        text_le(a, b),
        text_le(b, c),
    ensures
        text_le(a, c),
    decreases a.len(),
{
    if a.len() > 0 && b.len() > 0 && c.len() > 0 && a[0] == b[0] && b[0] == c[0] {
        lemma_text_le_trans(a.drop_first(), b.drop_first(), c.drop_first());
    }
}

proof fn lemma_text_le_skip(a: Seq<char>, b: Seq<char>, i: int)
    requires
        0 <= i <= a.len(),
        i <= b.len(),
        forall|j: int| 0 <= j < i ==> a[j] == b[j],
    ensures
        text_le(a, b) == text_le(a.skip(i), b.skip(i)),
    decreases i,
{
    if i == 0 {
        assert(a.skip(0) =~= a);
        assert(b.skip(0) =~= b);
    } else {
        assert(a[0] == b[0]);
        assert(a.skip(i) =~= a.drop_first().skip(i - 1));
        assert(b.skip(i) =~= b.drop_first().skip(i - 1));
        assert(forall|j: int|
            0 <= j < i - 1 ==> #[trigger] a.drop_first()[j] == b.drop_first()[j]);
        lemma_text_le_skip(a.drop_first(), b.drop_first(), i - 1);
    }
}

/// Lexicographic comparison of two strings.
pub fn str_le(a: &str, b: &str) -> (r: bool)
    ensures
        r == text_le(a@, b@),
{
    let n = a.unicode_len();
    let m = b.unicode_len();
    let mut i: usize = 0;
    while i < n && i < m
        invariant
            n == a@.len(),
            m == b@.len(),
            i <= n,
            i <= m,
            forall|j: int| 0 <= j < i ==> a@[j] == #[trigger] b@[j],
        decreases n - i,
    {
        let ca = a.get_char(i);
        let cb = b.get_char(i);
        if ca != cb {
            proof {
                lemma_text_le_skip(a@, b@, i as int);
                assert(a@.skip(i as int)[0] == a@[i as int]);
                assert(b@.skip(i as int)[0] == b@[i as int]);
            }
            return (ca as u32) < (cb as u32);
        }
        i = i + 1;
    }
    proof {
        lemma_text_le_skip(a@, b@, i as int);
        if i == n {
            assert(a@.skip(i as int).len() == 0);
        } else {
            assert(b@.skip(i as int).len() == 0);
            assert(a@.skip(i as int).len() > 0);
        }
    }
    n <= m
}

/// A character's code point with ASCII uppercase folded onto
/// lowercase.
pub open spec fn fold_char(c: char) -> int {
    if 'A' <= c && c <= 'Z' {
        c as int + 32
    } else {
        c as int
    }
}

/// Folds a character for comparison.
pub fn fold_char_val(c: char) -> (r: u32)
    ensures
        r as int == fold_char(c),
{
    let v = c as u32;
    if c >= 'A' && c <= 'Z' {
        v + 32
    } else {
        v
    }
}

/// Whether the needle matches the haystack at offset `k`, ignoring
/// ASCII case.
pub open spec fn ci_eq_at(hay: Seq<char>, needle: Seq<char>, k: int) -> bool {
    forall|t: int| 0 <= t < needle.len() ==> fold_char(hay[k + t]) == fold_char(#[trigger] needle[t])
}

/// Whether the needle occurs anywhere in the haystack, ignoring ASCII
/// case.  An empty needle occurs in every text.
pub open spec fn contains_ci(hay: Seq<char>, needle: Seq<char>) -> bool {
    exists|k: int| 0 <= k <= hay.len() - needle.len() && #[trigger] ci_eq_at(hay, needle, k)
}

/// Case-insensitive substring test.
pub fn str_contains_ci(hay: &str, needle: &str) -> (r: bool)
    ensures
        r == contains_ci(hay@, needle@),
{
    let n = hay.unicode_len();
    let m = needle.unicode_len();
    if m > n {
        return false;
    }
    let mut k: usize = 0;
    while k <= n - m
        invariant
            n == hay@.len(),
            m == needle@.len(),
            m <= n,
            k <= n - m + 1,
            forall|k2: int| 0 <= k2 < k ==> !ci_eq_at(hay@, needle@, k2),
        decreases n - m - k + 1,
    {
        let mut t: usize = 0;
        let mut all: bool = true;
        while t < m
            invariant
                n == hay@.len(),
                m == needle@.len(),
                m <= n,
                k <= n - m,
                t <= m,
                all == forall|t2: int|
                    0 <= t2 < t ==> fold_char(hay@[k + t2]) == fold_char(#[trigger] needle@[t2]),
            decreases m - t,
        {
            let hc = fold_char_val(hay.get_char(k + t));
            let nc = fold_char_val(needle.get_char(t));
            if hc != nc {
                all = false;
                proof {
                    assert(fold_char(hay@[k + t]) != fold_char(needle@[t as int]));
                }
                t = m;
            } else {
                proof {
                    if all {
                        assert forall|t2: int|
                            0 <= t2 < t + 1 implies fold_char(hay@[k + t2]) == fold_char(
                            #[trigger] needle@[t2],
                        ) by {}
                    }
                }
                t = t + 1;
            }
        }
        if all {
            proof {
                assert(ci_eq_at(hay@, needle@, k as int));
            }
            return true;
        }
        proof {
            assert(!ci_eq_at(hay@, needle@, k as int));
        }
        k = k + 1;
    }
    proof {
        assert forall|k2: int|
            0 <= k2 <= hay@.len() - needle@.len() implies !ci_eq_at(hay@, needle@, k2) by {}
    }
    false
}

} // verus!
