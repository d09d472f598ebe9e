//! Lexicographic order on character sequences, and case-sensitive substring
//! matching, with executable counterparts proved against the spec-level
//! definitions.
use vstd::prelude::*;

verus! {

/// Strict lexicographic order on character sequences, comparing code points:
/// the empty sequence precedes every non-empty one, and otherwise the first
/// differing position decides.
pub open spec fn str_lt(a: Seq<char>, b: Seq<char>) -> bool
    decreases a.len(),
{
    if b.len() == 0 {
        false
    } else if a.len() == 0 {
        true
    } else if a[0] == b[0] {
        str_lt(a.drop_first(), b.drop_first())
    } else {
        a[0] < b[0]
    }
}

/// Non-strict lexicographic order on character sequences.
pub open spec fn str_le(a: Seq<char>, b: Seq<char>) -> bool {
    !str_lt(b, a)
}

pub proof fn lemma_str_lt_asym(a: Seq<char>, b: Seq<char>)
    requires
        str_lt(a, b),
    ensures
        !str_lt(b, a),
    decreases a.len(),
{
    if b.len() == 0 {
    } else if a.len() == 0 {
    } else if a[0] == b[0] {
        lemma_str_lt_asym(a.drop_first(), b.drop_first());
    }
}

pub proof fn lemma_str_lt_connected(a: Seq<char>, b: Seq<char>)
    requires
        !str_lt(a, b),
        !str_lt(b, a),
    ensures
        a == b,
    decreases a.len(),
{
    if a.len() == 0 && b.len() == 0 {
        assert(a =~= b);
    } else if a.len() == 0 {
        assert(str_lt(a, b));
    } else if b.len() == 0 {
        assert(str_lt(b, a));
    } else {
        if a[0] == b[0] {
            lemma_str_lt_connected(a.drop_first(), b.drop_first());
            assert(a.drop_first().len() == b.drop_first().len());
            assert(a.len() == b.len());
            assert forall|i: int| 0 <= i < a.len() implies a[i] == b[i] by {
                if i > 0 {
                    assert(a[i] == a.drop_first()[i - 1]);
                    assert(b[i] == b.drop_first()[i - 1]);
                }
            }
            assert(a =~= b);
        } else {
            assert(!(a[0] < b[0]));
            assert(!(b[0] < a[0]));
            assert(a[0] == b[0]);
        }
    }
}

pub proof fn lemma_str_lt_trans(a: Seq<char>, b: Seq<char>, c: Seq<char>)
    requires
        str_lt(a, b),
        str_lt(b, c),
    ensures
        str_lt(a, c),
    decreases b.len(),
{
    if c.len() == 0 {
    } else if b.len() == 0 {
    } else if a.len() == 0 {
    } else {
        if a[0] == b[0] && b[0] == c[0] {
            lemma_str_lt_trans(a.drop_first(), b.drop_first(), c.drop_first());
        }
    }
}

pub proof fn lemma_str_lt_irreflexive(a: Seq<char>)
    ensures
        !str_lt(a, a),
{
    if str_lt(a, a) {
        lemma_str_lt_asym(a, a);
    }
}

pub proof fn lemma_str_le_trans(a: Seq<char>, b: Seq<char>, c: Seq<char>)
    requires
        str_le(a, b),
        str_le(b, c),
    ensures
        str_le(a, c),
{
    if str_lt(c, a) {
        if str_lt(a, b) {
            lemma_str_lt_trans(c, a, b);
        } else {
            lemma_str_lt_connected(a, b);
        }
    }
}

/// If `a` and `b` agree on their first `k` characters, the comparison is
/// decided by the remainders.
pub proof fn lemma_str_lt_skip(a: Seq<char>, b: Seq<char>, k: int)
    requires
        0 <= k <= a.len(),
        k <= b.len(),
        forall|j: int| 0 <= j < k ==> a[j] == b[j],
    ensures
        str_lt(a, b) == str_lt(a.skip(k), b.skip(k)),
    decreases k,
{
    if k > 0 {
        lemma_str_lt_skip(a.drop_first(), b.drop_first(), k - 1);
        assert(a.drop_first().skip(k - 1) =~= a.skip(k));
        assert(b.drop_first().skip(k - 1) =~= b.skip(k));
        assert(forall|j: int|
            0 <= j < k - 1 ==> a.drop_first()[j] == b.drop_first()[j]) by {
            assert(forall|j: int|
                0 <= j < k - 1 ==> a.drop_first()[j] == a[j + 1] && b.drop_first()[j] == b[j + 1]);
        }
    } else {
        assert(a.skip(0) =~= a);
        assert(b.skip(0) =~= b);
    }
}

/// Decides `str_le` on string slices by scanning for the first differing
/// character.
pub fn str_le_chars(a: &str, b: &str) -> (r: bool)
    ensures
        r == str_le(a@, b@),
{
    let la = a.unicode_len();
    let lb = b.unicode_len();
    let mut k: usize = 0;
    while k < la && k < lb
        invariant
            k <= la,
            k <= lb,
            la == a@.len(),
            lb == b@.len(),
            forall|j: int| 0 <= j < k ==> a@[j] == b@[j],
        decreases la - k,
    {
        let ca = a.get_char(k);
        let cb = b.get_char(k);
        if ca < cb {
            proof {
                lemma_str_lt_skip(b@, a@, k as int);
                assert(!str_lt(b@.skip(k as int), a@.skip(k as int)));
            }
            return true;
        } else if cb < ca {
            proof {
                lemma_str_lt_skip(b@, a@, k as int);
                assert(str_lt(b@.skip(k as int), a@.skip(k as int)));
            }
            return false;
        }
        k += 1;
    }
    proof {
        lemma_str_lt_skip(b@, a@, k as int);
        if la <= lb {
            assert(a@.skip(k as int).len() == 0);
            assert(!str_lt(b@.skip(k as int), a@.skip(k as int)));
        } else {
            assert(b@.skip(k as int).len() == 0);
            assert(a@.skip(k as int).len() > 0);
            assert(str_lt(b@.skip(k as int), a@.skip(k as int)));
        }
    }
    la <= lb
}

/// Decides view equality of two string slices.
pub fn str_equal(a: &str, b: &str) -> (r: bool)
    ensures
        r == (a@ == b@),
{
    let la = a.unicode_len();
    let lb = b.unicode_len();
    if la != lb {
        return false;
    }
    let mut k: usize = 0;
    while k < la
        invariant
            k <= la,
            la == a@.len(),
            la == b@.len(),
            forall|j: int| 0 <= j < k ==> a@[j] == b@[j],
        decreases la - k,
    {
        if a.get_char(k) != b.get_char(k) {
            return false;
        }
        k += 1;
    }
    proof {
        assert(a@ =~= b@);
    }
    true
}

/// True when `name` contains `sub` as a contiguous run of characters
/// starting at index `i`.
pub open spec fn matches_at(name: Seq<char>, sub: Seq<char>, i: int) -> bool {
    0 <= i && i + sub.len() <= name.len() && name.subrange(i, i + sub.len()) == sub
}

/// True when `name` contains `sub` as a contiguous run of characters
/// anywhere; the empty `sub` matches every name.
pub open spec fn name_matches(name: Seq<char>, sub: Seq<char>) -> bool {
    exists|i: int| matches_at(name, sub, i)
}

fn match_at(name: &str, sub: &str, i: usize, n: usize, m: usize) -> (r: bool)
    requires
        n == name@.len(),
        m == sub@.len(),
        i + m <= n,
    ensures
        r == matches_at(name@, sub@, i as int),
{
    let mut j: usize = 0;
    while j < m
        invariant
            j <= m,
            n == name@.len(),
            m == sub@.len(),
            i + m <= n,
            forall|t: int| 0 <= t < j ==> name@[i + t] == sub@[t],
        decreases m - j,
    {
        if name.get_char(i + j) != sub.get_char(j) {
            proof {
                assert(name@.subrange(i as int, i + m)[j as int] == name@[i + j]);
            }
            return false;
        }
        j += 1;
    }
    proof {
        assert(name@.subrange(i as int, i + m) =~= sub@);
    }
    true
}

/// Case-sensitive substring test: true when `name` contains `sub`.
pub fn contains_substr(name: &str, sub: &str) -> (r: bool)
    ensures
        r == name_matches(name@, sub@),
{
    let n = name.unicode_len();
    let m = sub.unicode_len();
    if m > n {
        return false;
    }
    if m == 0 {
        proof {
            assert(name@.subrange(0, 0) =~= sub@);
            assert(matches_at(name@, sub@, 0));
        }
        return true;
    }
    let mut i: usize = 0;
    while i <= n - m
        invariant
            0 < m <= n,
            i <= n - m + 1,
            n == name@.len(),
            m == sub@.len(),
            forall|k: int| 0 <= k < i ==> !matches_at(name@, sub@, k),
        decreases n - i,
    {
        if match_at(name, sub, i, n, m) {
            return true;
        }
        i += 1;
    }
    false
}

} // verus!
