//! Verified string utilities: locating delimiter characters, string
//! equality, and lexicographic comparison over character sequences.

use vstd::prelude::*;
use vstd::string::StrSliceExecFns;

verus! {

/// Index of the last occurrence of `c` in `s`, or `-1` when absent.
pub open spec fn last_index_of(s: Seq<char>, c: char) -> int
    decreases s.len(),
{
    if s.len() == 0 {
        -1
    } else if s[s.len() - 1] == c {
        s.len() - 1
    } else {
        last_index_of(s.drop_last(), c)
    }
}

/// Index of the first occurrence of `c` in `s`, or `-1` when absent.
pub open spec fn first_index_of(s: Seq<char>, c: char) -> int
    decreases s.len(),
{
    if s.len() == 0 {
        -1
    } else if s[0] == c {
        0
    } else if first_index_of(s.skip(1), c) == -1 {
        -1
    } else {
        first_index_of(s.skip(1), c) + 1
    }
}

pub proof fn lemma_last_index_of(s: Seq<char>, c: char)
    ensures
        -1 <= last_index_of(s, c) < s.len(),
        last_index_of(s, c) >= 0 ==> s[last_index_of(s, c)] == c,
        forall|k: int| last_index_of(s, c) < k < s.len() ==> s[k] != c,
    decreases s.len(),
{
    if s.len() == 0 {
    } else if s[s.len() - 1] == c {
    } else {
        lemma_last_index_of(s.drop_last(), c);
        assert forall|k: int| last_index_of(s, c) < k < s.len() implies s[k] != c by {
            if k < s.len() - 1 {
                assert(s.drop_last()[k] == s[k]);
            }
        }
    }
}

/// The characterisation of `last_index_of` is unique.
pub proof fn lemma_last_index_of_unique(s: Seq<char>, c: char, i: int)
    requires
        0 <= i < s.len(),
        s[i] == c,
        forall|k: int| i < k < s.len() ==> s[k] != c,
    ensures
        last_index_of(s, c) == i,
    decreases s.len(),
{
    if i == s.len() - 1 {
    } else {
        assert(s[s.len() - 1] != c);
        assert(s.drop_last()[i] == s[i]);
        assert forall|k: int| i < k < s.drop_last().len() implies s.drop_last()[k] != c by {
            assert(s.drop_last()[k] == s[k]);
        }
        lemma_last_index_of_unique(s.drop_last(), c, i);
    }
}

pub proof fn lemma_last_index_of_none(s: Seq<char>, c: char)
    requires
        forall|k: int| 0 <= k < s.len() ==> s[k] != c,
    ensures
        last_index_of(s, c) == -1,
    decreases s.len(),
{
    if s.len() > 0 {
        assert forall|k: int| 0 <= k < s.drop_last().len() implies s.drop_last()[k] != c by {
            assert(s.drop_last()[k] == s[k]);
        }
        lemma_last_index_of_none(s.drop_last(), c);
    }
}

pub proof fn lemma_first_index_of(s: Seq<char>, c: char)
    ensures
        -1 <= first_index_of(s, c) < s.len(),
        first_index_of(s, c) >= 0 ==> s[first_index_of(s, c)] == c,
        forall|k: int| 0 <= k < first_index_of(s, c) ==> s[k] != c,
        first_index_of(s, c) == -1 ==> forall|k: int| 0 <= k < s.len() ==> s[k] != c,
    decreases s.len(),
{
    if s.len() == 0 {
    } else if s[0] == c {
    } else {
        lemma_first_index_of(s.skip(1), c);
        assert forall|k: int| 0 <= k < first_index_of(s, c) implies s[k] != c by {
            if k > 0 {
                assert(s.skip(1)[k - 1] == s[k]);
            }
        }
        if first_index_of(s, c) == -1 {
            assert forall|k: int| 0 <= k < s.len() implies s[k] != c by {
                if k > 0 {
                    assert(s.skip(1)[k - 1] == s[k]);
                }
            }
        }
    }
}

pub proof fn lemma_first_index_of_unique(s: Seq<char>, c: char, i: int)
    requires
        0 <= i < s.len(),
        s[i] == c,
        forall|k: int| 0 <= k < i ==> s[k] != c,
    ensures
        first_index_of(s, c) == i,
    decreases s.len(),
{
    if i == 0 {
    } else {
        assert(s[0] != c);
        assert(s.skip(1)[i - 1] == s[i]);
        assert forall|k: int| 0 <= k < i - 1 implies s.skip(1)[k] != c by {
            assert(s.skip(1)[k] == s[k + 1]);
        }
        lemma_first_index_of_unique(s.skip(1), c, i - 1);
    }
}

/// Index of the last occurrence of `c` in `s`, scanning from the right.
pub fn rfind(s: &str, c: char) -> (r: Option<usize>)
    ensures
        match r {
            Some(i) => i == last_index_of(s@, c),
            None => last_index_of(s@, c) == -1,
        },
{
    let len = s.unicode_len();
    let mut i = len;
    while i > 0
        invariant
            i <= len,
            len == s@.len(),
            forall|k: int| i <= k < s@.len() ==> s@[k] != c,
        decreases i,
    {
        i = i - 1;
        if s.get_char(i) == c {
            proof {
                lemma_last_index_of_unique(s@, c, i as int);
            }
            return Some(i);
        }
    }
    proof {
        lemma_last_index_of_none(s@, c);
    }
    None
}

/// Index of the first occurrence of `c` in `s`.
pub fn find(s: &str, c: char) -> (r: Option<usize>)
    ensures
        match r {
            Some(i) => i == first_index_of(s@, c),
            None => first_index_of(s@, c) == -1,
        },
{
    let len = s.unicode_len();
    let mut i: usize = 0;
    while i < len
        invariant
            i <= len,
            len == s@.len(),
            forall|k: int| 0 <= k < i ==> s@[k] != c,
        decreases len - i,
    {
        if s.get_char(i) == c {
            proof {
                lemma_first_index_of_unique(s@, c, i as int);
            }
            return Some(i);
        }
        i = i + 1;
    }
    proof {
        lemma_first_index_of(s@, c);
    }
    None
}

/// Character-for-character string equality.
pub fn str_eq(a: &str, b: &str) -> (r: bool)
    ensures
        r <==> a@ == b@,
{
    let alen = a.unicode_len();
    let blen = b.unicode_len();
    if alen != blen {
        return false;
    }
    let mut i: usize = 0;
    while i < alen
        invariant
            i <= alen,
            alen == a@.len(),
            alen == b@.len(),
            forall|k: int| 0 <= k < i ==> a@[k] == b@[k],
        decreases alen - i,
    {
        if s_ne(a.get_char(i), b.get_char(i)) {
            return false;
        }
        i = i + 1;
    }
    proof {
        assert(a@ =~= b@);
    }
    true
}

/// True when the characters differ.
fn s_ne(x: char, y: char) -> (r: bool)
    ensures
        r <==> x != y,
{
    x != y
}

/// Strict lexicographic order on character sequences, by code point,
/// the order in which Rust compares strings.
pub open spec fn lex_lt(a: Seq<char>, b: Seq<char>) -> bool
    decreases a.len(),
{
    if b.len() == 0 {
        false
    } else if a.len() == 0 {
        true
    } else if a[0] < b[0] {
        true
    } else if b[0] < a[0] {
        false
    } else {
        lex_lt(a.skip(1), b.skip(1))
    }
}

/// `lex_lt` together with equality is a total order: exactly one of
/// `a < b`, `a == b`, `b < a` holds.
pub proof fn lemma_lex_trichotomy(a: Seq<char>, b: Seq<char>)
    ensures
        lex_lt(a, b) || lex_lt(b, a) || a == b,
        !(lex_lt(a, b) && lex_lt(b, a)),
        lex_lt(a, b) ==> a != b,
    decreases a.len() + b.len(),
{
    if a.len() == 0 && b.len() == 0 {
        assert(a =~= b);
    } else if a.len() > 0 && b.len() > 0 {
        if !(a[0] < b[0]) && !(b[0] < a[0]) {
            assert(a[0] == b[0]);
            lemma_lex_trichotomy(a.skip(1), b.skip(1));
            if a.skip(1) == b.skip(1) {
                assert(a =~= b) by {
                    assert(a.len() == 1 + a.skip(1).len());
                    assert(b.len() == 1 + b.skip(1).len());
                    assert forall|k: int| 0 <= k < a.len() implies a[k] == b[k] by {
                        if k > 0 {
                            assert(a.skip(1)[k - 1] == a[k]);
                            assert(b.skip(1)[k - 1] == b[k]);
                        }
                    }
                }
            }
            if a == b {
                assert(a.skip(1) =~= b.skip(1));
            }
        }
    }
}

pub proof fn lemma_lex_transitive(a: Seq<char>, b: Seq<char>, c: Seq<char>)
    requires
        lex_lt(a, b),
        lex_lt(b, c),
    ensures
        lex_lt(a, c),
    decreases a.len() + b.len() + c.len(),
{
    if b.len() == 0 {
    } else if c.len() == 0 {
    } else if a.len() == 0 {
    } else {
        if a[0] == b[0] && b[0] == c[0] {
            lemma_lex_transitive(a.skip(1), b.skip(1), c.skip(1));
        }
    }
}

/// If the first `i` characters agree, the order of the full sequences
/// is the order of the tails.
pub proof fn lemma_lex_common_prefix(a: Seq<char>, b: Seq<char>, i: int)
    requires
        0 <= i <= a.len(),
        i <= b.len(),
        forall|k: int| 0 <= k < i ==> a[k] == b[k],
    ensures
        lex_lt(a, b) == lex_lt(a.skip(i), b.skip(i)),
    decreases i,
{
    if i > 0 {
        assert(a.len() > 0 && b.len() > 0);
        assert(a[0] == b[0]);
        assert forall|k: int| 0 <= k < i - 1 implies a.skip(1)[k] == b.skip(1)[k] by {
            assert(a.skip(1)[k] == a[k + 1]);
            assert(b.skip(1)[k] == b[k + 1]);
        }
        assert(lex_lt(a, b) == lex_lt(a.skip(1), b.skip(1)));
        lemma_lex_common_prefix(a.skip(1), b.skip(1), i - 1);
        assert(a.skip(1).skip(i - 1) =~= a.skip(i));
        assert(b.skip(1).skip(i - 1) =~= b.skip(i));
        assert(lex_lt(a.skip(1), b.skip(1)) == lex_lt(a.skip(i), b.skip(i)));
    } else {
        assert(a.skip(0) =~= a);
        assert(b.skip(0) =~= b);
    }
}

/// Three-way lexicographic comparison: negative, zero or positive as
/// `a` sorts before, equal to, or after `b`.
pub fn lex_cmp(a: &str, b: &str) -> (r: i32)
    ensures
        (r == 0) <==> a@ == b@,
        (r < 0) <==> lex_lt(a@, b@),
        (r > 0) <==> lex_lt(b@, a@),
{
    let alen = a.unicode_len();
    let blen = b.unicode_len();
    let mut i: usize = 0;
    loop
        invariant
            i <= alen,
            i <= blen,
            alen == a@.len(),
            blen == b@.len(),
            forall|k: int| 0 <= k < i ==> a@[k] == b@[k],
        decreases alen - i,
    {
        proof {
            lemma_lex_common_prefix(a@, b@, i as int);
            lemma_lex_common_prefix(b@, a@, i as int);
        }
        if i >= alen || i >= blen {
            if alen == blen {
                proof {
                    assert(a@ =~= b@);
                    lemma_lex_trichotomy(a@, b@);
                }
                return 0;
            } else if alen < blen {
                proof {
                    assert(a@.skip(i as int).len() == 0);
                    assert(b@.skip(i as int).len() > 0);
                    lemma_lex_trichotomy(a@, b@);
                }
                return -1;
            } else {
                proof {
                    assert(b@.skip(i as int).len() == 0);
                    assert(a@.skip(i as int).len() > 0);
                    lemma_lex_trichotomy(a@, b@);
                }
                return 1;
            }
        }
        let ca = a.get_char(i);
        let cb = b.get_char(i);
        proof {
            assert(a@.skip(i as int)[0] == a@[i as int]);
            assert(b@.skip(i as int)[0] == b@[i as int]);
        }
        if ca < cb {
            proof {
                assert(lex_lt(a@.skip(i as int), b@.skip(i as int)));
                lemma_lex_trichotomy(a@, b@);
            }
            return -1;
        } else if cb < ca {
            proof {
                assert(lex_lt(b@.skip(i as int), a@.skip(i as int)));
                lemma_lex_trichotomy(a@, b@);
            }
            return 1;
        }
        proof {
            assert(a@[i as int] == b@[i as int]);
        }
        i = i + 1;
    }
}

} // verus!
