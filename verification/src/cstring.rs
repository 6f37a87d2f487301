//! Byte strings that a NUL ends.
//!
//! A string is handed over as a byte slice. It ends at its first NUL, or at the end of the slice
//! if the slice holds none.

use vstd::prelude::*;

verus! {

/// The byte at `i`, or NUL past the end.
pub open spec fn byte_at(s: Seq<u8>, i: int) -> u8 {
    if 0 <= i < s.len() {
        s[i]
    } else {
        0
    }
}

/// The position of the first NUL of `s` at or after `i`, or the length of `s`.
pub open spec fn nul_from(s: Seq<u8>, i: int) -> int
    decreases s.len() - i,
{
    if i >= s.len() || s[i] == 0 {
        i
    } else {
        nul_from(s, i + 1)
    }
}

/// The string that `s` holds: the bytes before its first NUL.
pub open spec fn cstr(s: Seq<u8>) -> Seq<u8> {
    s.take(nul_from(s, 0))
}

/// Whether no byte of `s` is NUL.
pub open spec fn nul_free(s: Seq<u8>) -> bool {
    forall|i: int| 0 <= i < s.len() ==> s[i] != 0
}

pub proof fn lemma_nul_from(s: Seq<u8>, i: int)
    requires
        0 <= i <= s.len(),
    ensures
        i <= nul_from(s, i) <= s.len(),
        forall|k: int| i <= k < nul_from(s, i) ==> s[k] != 0,
        byte_at(s, nul_from(s, i)) == 0,
    decreases s.len() - i,
{
    if i < s.len() && s[i] != 0 {
        lemma_nul_from(s, i + 1);
    }
}

/// What `cstr` gives: a prefix of `s` without a NUL that `s` follows with a NUL or its end.
pub proof fn lemma_cstr(s: Seq<u8>)
    ensures
        nul_free(cstr(s)),
        cstr(s).len() <= s.len(),
        forall|i: int| 0 <= i <= cstr(s).len() ==> #[trigger] byte_at(s, i) == byte_at(cstr(s), i),
        forall|i: int| 0 <= i < cstr(s).len() ==> cstr(s)[i] == s[i],
{
    lemma_nul_from(s, 0);
}

/// A position with no NUL before it and a NUL (or the end) at it is where the string ends.
pub proof fn lemma_cstr_unique(s: Seq<u8>, n: int)
    requires
        0 <= n <= s.len(),
        forall|k: int| 0 <= k < n ==> s[k] != 0,
        byte_at(s, n) == 0,
    ensures
        cstr(s) == s.take(n),
        cstr(s).len() == n,
{
    lemma_nul_from(s, 0);
    let m = nul_from(s, 0);
    if m < n {
        assert(s[m] != 0);
    }
    if n < m {
        assert(s[n] != 0);
    }
}

/// Reads the byte at `i`, or NUL past the end.
pub fn at(s: &[u8], i: usize) -> (c: u8)
    ensures
        c == byte_at(s@, i as int),
        s@.len() <= usize::MAX,
{
    if i < s.len() {
        s[i]
    } else {
        0
    }
}

/// The length of the string that `s` holds.
pub fn strlen(s: &[u8]) -> (n: usize)
    ensures
        n == cstr(s@).len(),
        n <= s@.len(),
{
    let mut n: usize = 0;
    while n < s.len() && s[n] != 0
        invariant
            n <= s@.len(),
            forall|k: int| 0 <= k < n ==> s@[k] != 0,
        decreases s@.len() - n,
    {
        n += 1;
    }
    proof {
        lemma_cstr_unique(s@, n as int);
    }
    n
}

} // verus!
