//! Byte-level helpers shared by the pattern parser and the tree: finding
//! marker bytes, comparing runs of bytes, and copying ranges out of a path.

use vstd::prelude::*;

verus! {

/// The byte that separates path components.
pub const SLASH: u8 = 47;

/// The byte that opens a named parameter segment in a pattern.
pub const COLON: u8 = 58;

/// The byte that opens a catch-all segment in a pattern.
pub const STAR: u8 = 42;

/// Index of the first byte of `s` that lies in `bs`, or `s.len()` if none does.
pub open spec fn first_in(s: Seq<u8>, bs: Set<u8>) -> int
    decreases s.len(),
{
    if s.len() == 0 {
        0
    } else if bs.contains(s[0]) {
        0
    } else {
        1 + first_in(s.skip(1), bs)
    }
}

/// True when no byte of `s` lies in `bs`.
pub open spec fn none_in(s: Seq<u8>, bs: Set<u8>) -> bool {
    forall|j: int| 0 <= j < s.len() ==> !bs.contains(#[trigger] s[j])
}

pub proof fn lemma_first_in(s: Seq<u8>, bs: Set<u8>)
    ensures
        0 <= first_in(s, bs) <= s.len(),
        first_in(s, bs) < s.len() ==> bs.contains(s[first_in(s, bs)]),
        forall|j: int| 0 <= j < first_in(s, bs) ==> !bs.contains(#[trigger] s[j]),
        (first_in(s, bs) == s.len()) <==> none_in(s, bs),
    decreases s.len(),
{
    if s.len() != 0 && !bs.contains(s[0]) {
        lemma_first_in(s.skip(1), bs);
        assert forall|j: int| 0 <= j < first_in(s, bs) implies !bs.contains(#[trigger] s[j]) by {
            if j > 0 {
                assert(s[j] == s.skip(1)[j - 1]);
            }
        }
        if first_in(s, bs) < s.len() {
            assert(s[first_in(s, bs)] == s.skip(1)[first_in(s.skip(1), bs)]);
        }
        if first_in(s, bs) == s.len() {
            assert forall|j: int| 0 <= j < s.len() implies !bs.contains(#[trigger] s[j]) by {
                if j > 0 {
                    assert(s[j] == s.skip(1)[j - 1]);
                }
            }
        }
    }
}

/// Any index that carries a byte of `bs` and has none before it is
/// `first_in`: the function is pinned by that characterisation.
pub proof fn lemma_first_in_is(s: Seq<u8>, bs: Set<u8>, i: int)
    requires
        0 <= i <= s.len(),
        i < s.len() ==> bs.contains(s[i]),
        forall|j: int| 0 <= j < i ==> !bs.contains(#[trigger] s[j]),
        i == s.len() ==> none_in(s, bs),
    ensures
        first_in(s, bs) == i,
{
    lemma_first_in(s, bs);
    let f = first_in(s, bs);
    if f < i {
        assert(bs.contains(s[f]));
    }
    if i < f {
        assert(bs.contains(s[i]));
    }
}

/// Relies on `memchr::memchr`: returns the index of the first occurrence of
/// `needle` in `haystack`, or `None` if it does not occur.
#[verifier::external_body]
pub(crate) fn find_byte(needle: u8, haystack: &[u8]) -> (r: Option<usize>)
    ensures
        match r {
            Some(i) => i < haystack@.len() && haystack@[i as int] == needle && forall|j: int|
                0 <= j < i ==> haystack@[j] != needle,
            None => forall|j: int| 0 <= j < haystack@.len() ==> haystack@[j] != needle,
        },
{
    memchr::memchr(needle, haystack)
}

/// Relies on `memchr::memchr2`: returns the index of the first byte of
/// `haystack` equal to `n1` or `n2`, or `None` if neither occurs.
#[verifier::external_body]
pub(crate) fn find_byte2(n1: u8, n2: u8, haystack: &[u8]) -> (r: Option<usize>)
    ensures
        match r {
            Some(i) => i < haystack@.len() && (haystack@[i as int] == n1 || haystack@[i as int]
                == n2) && forall|j: int|
                0 <= j < i ==> (haystack@[j] != n1 && haystack@[j] != n2),
            None => forall|j: int|
                0 <= j < haystack@.len() ==> (haystack@[j] != n1 && haystack@[j] != n2),
        },
{
    memchr::memchr2(n1, n2, haystack)
}

/// Relies on `memchr::memchr3`: returns the index of the first byte of
/// `haystack` equal to `n1`, `n2` or `n3`, or `None` if none occurs.
#[verifier::external_body]
pub(crate) fn find_byte3(n1: u8, n2: u8, n3: u8, haystack: &[u8]) -> (r: Option<usize>)
    ensures
        match r {
            Some(i) => i < haystack@.len() && (haystack@[i as int] == n1 || haystack@[i as int]
                == n2 || haystack@[i as int] == n3) && forall|j: int|
                0 <= j < i ==> (haystack@[j] != n1 && haystack@[j] != n2 && haystack@[j] != n3),
            None => forall|j: int|
                0 <= j < haystack@.len() ==> (haystack@[j] != n1 && haystack@[j] != n2
                    && haystack@[j] != n3),
        },
{
    memchr::memchr3(n1, n2, n3, haystack)
}

/// True when `m` occurs in `path` starting at `pos`.
pub(crate) fn prefix_eq(path: &[u8], pos: usize, m: &[u8]) -> (b: bool)
    requires
        pos <= path@.len(),
    ensures
        b <==> (pos + m@.len() <= path@.len() && path@.subrange(
            pos as int,
            pos as int + m@.len(),
        ) == m@),
{
    if m.len() > path.len() - pos {
        return false;
    }
    let mut i: usize = 0;
    while i < m.len()
        invariant
            path@.len() <= usize::MAX,
            pos + m@.len() <= path@.len(),
            0 <= i <= m@.len(),
            forall|j: int| 0 <= j < i ==> path@[pos + j] == m@[j],
        decreases m@.len() - i,
    {
        if path[pos + i] != m[i] {
            return false;
        }
        i = i + 1;
    }
    proof {
        assert(path@.subrange(pos as int, pos as int + m@.len()) =~= m@);
    }
    true
}

/// Length of the longest common prefix of `text[ti..]` and `m`.
pub(crate) fn common_prefix_from(text: &[u8], ti: usize, m: &[u8]) -> (c: usize)
    requires
        ti <= text@.len(),
    ensures
        ti + c <= text@.len(),
        c <= m@.len(),
        forall|j: int| 0 <= j < c ==> text@[ti + j] == m@[j],
        ti + c < text@.len() && c < m@.len() ==> text@[ti + c] != m@[c as int],
{
    let n: usize = text.len();
    let mut c: usize = 0;
    while ti + c < n && c < m.len() && text[ti + c] == m[c]
        invariant
            n == text@.len(),
            text@.len() <= usize::MAX,
            ti <= text@.len(),
            ti + c <= text@.len(),
            c <= m@.len(),
            forall|j: int| 0 <= j < c ==> text@[ti + j] == m@[j],
        decreases text@.len() - ti - c,
    {
        c = c + 1;
    }
    c
}

/// An owned copy of `s[a..b]`.
pub(crate) fn copy_range(s: &[u8], a: usize, b: usize) -> (v: Vec<u8>)
    requires
        a <= b <= s@.len(),
    ensures
        v@ == s@.subrange(a as int, b as int),
{
    let mut v: Vec<u8> = Vec::new();
    let mut i: usize = a;
    while i < b
        invariant
            a <= i <= b <= s@.len(),
            v@.len() == i - a,
            forall|j: int| 0 <= j < v@.len() ==> v@[j] == s@[a + j],
        decreases b - i,
    {
        v.push(s[i]);
        i = i + 1;
    }
    proof {
        assert(v@ =~= s@.subrange(a as int, b as int));
    }
    v
}

/// True when the two byte runs are equal.
pub(crate) fn bytes_eq(a: &[u8], b: &[u8]) -> (r: bool)
    ensures
        r <==> a@ == b@,
{
    if a.len() != b.len() {
        proof {
            assert(a@ != b@);
        }
        return false;
    }
    let mut i: usize = 0;
    while i < a.len()
        invariant
            a@.len() == b@.len(),
            0 <= i <= a@.len(),
            forall|j: int| 0 <= j < i ==> a@[j] == b@[j],
        decreases a@.len() - i,
    {
        if a[i] != b[i] {
            return false;
        }
        i = i + 1;
    }
    proof {
        assert(a@ =~= b@);
    }
    true
}

/// Length of the longest common prefix of two byte runs.
pub open spec fn common_len(a: Seq<u8>, b: Seq<u8>) -> int
    decreases a.len(),
{
    if a.len() == 0 || b.len() == 0 || a[0] != b[0] {
        0
    } else {
        1 + common_len(a.skip(1), b.skip(1))
    }
}

pub proof fn lemma_common_len(a: Seq<u8>, b: Seq<u8>)
    ensures
        0 <= common_len(a, b) <= a.len(),
        common_len(a, b) <= b.len(),
        forall|j: int| 0 <= j < common_len(a, b) ==> a[j] == b[j],
        common_len(a, b) < a.len() && common_len(a, b) < b.len() ==> a[common_len(a, b)]
            != b[common_len(a, b)],
    decreases a.len(),
{
    if a.len() != 0 && b.len() != 0 && a[0] == b[0] {
        lemma_common_len(a.skip(1), b.skip(1));
        let c = common_len(a, b);
        assert forall|j: int| 0 <= j < c implies a[j] == b[j] by {
            if j > 0 {
                assert(a[j] == a.skip(1)[j - 1] && b[j] == b.skip(1)[j - 1]);
            }
        }
        if c < a.len() && c < b.len() {
            assert(a[c] == a.skip(1)[c - 1] && b[c] == b.skip(1)[c - 1]);
        }
    }
}

/// Any length with equal bytes before it and a mismatch or an end at it is
/// `common_len`: the function is pinned by that characterisation.
pub proof fn lemma_common_len_is(a: Seq<u8>, b: Seq<u8>, c: int)
    requires
        0 <= c <= a.len(),
        c <= b.len(),
        forall|j: int| 0 <= j < c ==> a[j] == b[j],
        c < a.len() && c < b.len() ==> a[c] != b[c],
    ensures
        common_len(a, b) == c,
{
    lemma_common_len(a, b);
    let f = common_len(a, b);
    if f < c {
        assert(a[f] == b[f]);
    }
    if c < f {
        assert(a[c] == b[c]);
    }
}

} // verus!
