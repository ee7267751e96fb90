//! Case-insensitive ordering of names.
//!
//! Listings are ordered the way the storage collation orders them: by code
//! point, after folding the ASCII letters `A`..`Z` to lower case.  This
//! module defines that order on character sequences, proves it strict and
//! transitive, and provides executable comparison of strings against it.

use vstd::prelude::*;

verus! {

/// The collation key of one character: ASCII upper-case letters fold to
/// lower case, every other character is its own code point.
pub open spec fn fold_char(c: char) -> int {
    let v = (c as u32) as int;
    if 65 <= v && v <= 90 {
        v + 32
    } else {
        v
    }
}

/// `a` sorts strictly before `b`, comparing folded characters
/// lexicographically; a proper prefix sorts before its extensions.
pub open spec fn nocase_lt(a: Seq<char>, b: Seq<char>) -> bool
    decreases a.len(),
{
    if b.len() == 0 {
        false
    } else if a.len() == 0 {
        true
    } else if fold_char(a[0]) != fold_char(b[0]) {
        fold_char(a[0]) < fold_char(b[0])
    } else {
        nocase_lt(a.drop_first(), b.drop_first())
    }
}

/// `a` and `b` are the same name up to ASCII case.
pub open spec fn nocase_eq(a: Seq<char>, b: Seq<char>) -> bool {
    a.len() == b.len() && (forall|i: int| 0 <= i < a.len() ==> fold_char(a[i]) == fold_char(b[i]))
}

/// A sequence of names in strictly ascending case-insensitive order.
pub open spec fn sorted_names(s: Seq<Seq<char>>) -> bool {
    forall|i: int, j: int| 0 <= i < j < s.len() ==> nocase_lt(#[trigger] s[i], #[trigger] s[j])
}

/// The order is strict: `a < b` excludes both `a ~ b` and `b < a`.
pub proof fn lemma_nocase_strict(a: Seq<char>, b: Seq<char>)
    ensures
        nocase_lt(a, b) ==> !nocase_eq(a, b) && !nocase_lt(b, a),
    decreases a.len(),
{
    if b.len() == 0 {
    } else if a.len() == 0 {
        assert(!nocase_eq(a, b));
    } else if fold_char(a[0]) != fold_char(b[0]) {
        assert(nocase_lt(a, b) ==> !nocase_eq(a, b)) by {
            if nocase_eq(a, b) {
                assert(fold_char(a[0]) == fold_char(b[0]));
            }
        }
    } else {
        lemma_nocase_strict(a.drop_first(), b.drop_first());
        if nocase_lt(a, b) {
            if nocase_eq(a, b) {
                assert forall|i: int| 0 <= i < a.drop_first().len() implies fold_char(
                    a.drop_first()[i],
                ) == fold_char(b.drop_first()[i]) by {
                    assert(a.drop_first()[i] == a[i + 1]);
                    assert(b.drop_first()[i] == b[i + 1]);
                }
                assert(nocase_eq(a.drop_first(), b.drop_first()));
                assert(false);
            }
        }
    }
}

/// The order is transitive.
pub proof fn lemma_nocase_trans(a: Seq<char>, b: Seq<char>, c: Seq<char>)
    requires
        nocase_lt(a, b),
        nocase_lt(b, c),
    ensures
        nocase_lt(a, c),
    decreases a.len(),
{
    if b.len() == 0 {
        assert(false);
    } else if c.len() == 0 {
        assert(false);
    } else if a.len() == 0 {
    } else {
        let fa = fold_char(a[0]);
        let fb = fold_char(b[0]);
        let fc = fold_char(c[0]);
        if fa == fb && fb == fc {
            lemma_nocase_trans(a.drop_first(), b.drop_first(), c.drop_first());
        } else {
            assert(fa <= fb && fb <= fc);
            assert(fa < fc);
        }
    }
}

/// Characters equal under folding up to `i`, then a strictly smaller fold
/// at `i`, make the whole name strictly smaller.
pub proof fn lemma_nocase_lt_at(a: Seq<char>, b: Seq<char>, i: int)
    requires
        0 <= i < a.len(),
        i < b.len(),
        forall|k: int| 0 <= k < i ==> fold_char(a[k]) == fold_char(b[k]),
        fold_char(a[i]) < fold_char(b[i]),
    ensures
        nocase_lt(a, b),
    decreases i,
{
    if i == 0 {
    } else {
        assert(fold_char(a[0]) == fold_char(b[0]));
        assert forall|k: int| 0 <= k < i - 1 implies fold_char(a.drop_first()[k]) == fold_char(
            b.drop_first()[k],
        ) by {
            assert(a.drop_first()[k] == a[k + 1]);
            assert(b.drop_first()[k] == b[k + 1]);
        }
        assert(a.drop_first()[i - 1] == a[i]);
        assert(b.drop_first()[i - 1] == b[i]);
        lemma_nocase_lt_at(a.drop_first(), b.drop_first(), i - 1);
    }
}

/// A proper prefix (under folding) sorts strictly before the longer name.
pub proof fn lemma_nocase_lt_prefix(a: Seq<char>, b: Seq<char>)
    requires
        a.len() < b.len(),
        forall|k: int| 0 <= k < a.len() ==> fold_char(a[k]) == fold_char(b[k]),
    ensures
        nocase_lt(a, b),
    decreases a.len(),
{
    if a.len() == 0 {
    } else {
        assert(fold_char(a[0]) == fold_char(b[0]));
        assert forall|k: int| 0 <= k < a.drop_first().len() implies fold_char(
            a.drop_first()[k],
        ) == fold_char(b.drop_first()[k]) by {
            assert(a.drop_first()[k] == a[k + 1]);
            assert(b.drop_first()[k] == b[k + 1]);
        }
        lemma_nocase_lt_prefix(a.drop_first(), b.drop_first());
    }
}

/// Strictly sorted names are pairwise distinct.
pub proof fn lemma_sorted_names_distinct(s: Seq<Seq<char>>)
    requires
        sorted_names(s),
    ensures
        forall|i: int, j: int| 0 <= i < j < s.len() ==> #[trigger] s[i] != #[trigger] s[j],
{
    assert forall|i: int, j: int| 0 <= i < j < s.len() implies #[trigger] s[i] != #[trigger] s[j] by {
        if s[i] == s[j] {
            assert(nocase_lt(s[i], s[j]));
            lemma_nocase_strict(s[i], s[j]);
            assert(nocase_eq(s[i], s[j]));
        }
    }
}

/// The collation key of one character, executably.
pub fn fold_char_exec(c: char) -> (r: u32)
    ensures
        r as int == fold_char(c),
{
    let v = c as u32;
    if 65 <= v && v <= 90 {
        v + 32
    } else {
        v
    }
}

/// Three-way case-insensitive comparison of two strings:
/// `-1` for strictly before, `0` for equal up to case, `1` for after.
pub fn nocase_cmp(a: &str, b: &str) -> (r: i32)
    ensures
        -1 <= r <= 1,
        (r == -1) == nocase_lt(a@, b@),
        (r == 0) == nocase_eq(a@, b@),
        (r == 1) == nocase_lt(b@, a@),
{
    let la = a.unicode_len();
    let lb = b.unicode_len();
    let mut i: usize = 0;
    while i < la && i < lb
        invariant
            i <= la,
            i <= lb,
            la == a@.len(),
            lb == b@.len(),
            forall|k: int| 0 <= k < i ==> fold_char(a@[k]) == fold_char(b@[k]),
        decreases la - i,
    {
        let ca = fold_char_exec(a.get_char(i));
        let cb = fold_char_exec(b.get_char(i));
        if ca < cb {
            proof {
                lemma_nocase_lt_at(a@, b@, i as int);
                lemma_nocase_strict(a@, b@);
            }
            return -1;
        }
        if cb < ca {
            proof {
                lemma_nocase_lt_at(b@, a@, i as int);
                lemma_nocase_strict(b@, a@);
            }
            return 1;
        }
        i += 1;
    }
    if la < lb {
        proof {
            lemma_nocase_lt_prefix(a@, b@);
            lemma_nocase_strict(a@, b@);
        }
        -1
    } else if lb < la {
        proof {
            lemma_nocase_lt_prefix(b@, a@);
            lemma_nocase_strict(b@, a@);
        }
        1
    } else {
        proof {
            assert(nocase_eq(a@, b@));
            lemma_nocase_strict(a@, b@);
            lemma_nocase_strict(b@, a@);
        }
        0
    }
}

/// Exact (case-sensitive) equality of two strings.
pub fn str_eq(a: &str, b: &str) -> (r: bool)
    ensures
        r == (a@ == b@),
{
    let la = a.unicode_len();
    let lb = b.unicode_len();
    if la != lb {
        proof {
            assert(a@ != b@) by {
                if a@ == b@ {
                    assert(a@.len() == b@.len());
                }
            }
        }
        return false;
    }
    let mut i: usize = 0;
    while i < la
        invariant
            i <= la,
            la == a@.len(),
            la == b@.len(),
            forall|k: int| 0 <= k < i ==> a@[k] == b@[k],
        decreases la - i,
    {
        if a.get_char(i) != b.get_char(i) {
            proof {
                assert(a@ != b@) by {
                    if a@ == b@ {
                        assert(a@[i as int] == b@[i as int]);
                    }
                }
            }
            return false;
        }
        i += 1;
    }
    proof {
        assert(a@ =~= b@);
    }
    true
}

} // verus!
