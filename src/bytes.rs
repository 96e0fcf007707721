//! Small verified helpers on byte slices.
use vstd::prelude::*;

verus! {

/// A copy of `s[lo..hi]`.
pub fn copy_range(s: &[u8], lo: usize, hi: usize) -> (r: Vec<u8>)
    requires
        lo <= hi <= s@.len(),
    ensures
        r@ == s@.subrange(lo as int, hi as int),
{
    let mut r: Vec<u8> = Vec::new();
    let mut i: usize = lo;
    while i < hi
        invariant
            lo <= i <= hi <= s@.len(),
            r@ == s@.subrange(lo as int, i as int),
        decreases hi - i,
    {
        r.push(s[i]);
        i += 1;
        proof {
            assert(r@ =~= s@.subrange(lo as int, i as int));
        }
    }
    r
}

/// Whether two byte strings are equal.
pub fn same_bytes(a: &[u8], b: &[u8]) -> (r: bool)
    ensures
        r == (a@ == b@),
{
    if a.len() != b.len() {
        return false;
    }
    let mut i: usize = 0;
    while i < a.len()
        invariant
            a@.len() == b@.len(),
            0 <= i <= a@.len(),
            forall|j: int| 0 <= j < i ==> a@[j] == b@[j],
        decreases a@.len() - i,
    {
        if a[i] != b[i] {
            return false;
        }
        i += 1;
    }
    proof {
        assert(a@ =~= b@);
    }
    true
}

/// Whether `pat` occurs in `s` at index `i`.
pub open spec fn matches_at(s: Seq<u8>, i: int, pat: Seq<u8>) -> bool {
    0 <= i && i + pat.len() <= s.len() && s.subrange(i, i + pat.len()) == pat
}

/// The first index at or after `from` where `pat` occurs in `s`, or -1.
pub open spec fn first_match(s: Seq<u8>, from: int, pat: Seq<u8>) -> int
    decreases s.len() - from,
{
    if from < 0 || from + pat.len() > s.len() || from >= s.len() {
        -1
    } else if matches_at(s, from, pat) {
        from
    } else {
        first_match(s, from + 1, pat)
    }
}

/// The first index at or after `from` where `pat` occurs in `s`.
pub fn find_from(s: &[u8], from: usize, pat: &[u8]) -> (r: Option<usize>)
    ensures
        match r {
            Some(i) => i as int == first_match(s@, from as int, pat@),
            None => first_match(s@, from as int, pat@) == -1,
        },
{
    let mut i: usize = from;
    while i < s.len() && pat.len() <= s.len() - i
        invariant
            from <= i,
            first_match(s@, from as int, pat@) == first_match(s@, i as int, pat@),
        decreases s@.len() - i,
    {
        if same_bytes(&s[i..i + pat.len()], pat) {
            return Some(i);
        }
        i += 1;
    }
    None
}

/// A match found in `s` is found at the same place in any extension of `s`.
pub proof fn lemma_first_match_extend(s: Seq<u8>, t: Seq<u8>, from: int, pat: Seq<u8>)
    requires
        first_match(s, from, pat) >= 0,
    ensures
        first_match(s + t, from, pat) == first_match(s, from, pat),
    decreases s.len() - from,
{
    let u = s + t;
    if matches_at(s, from, pat) {
        assert(u.subrange(from, from + pat.len()) =~= s.subrange(from, from + pat.len()));
    } else {
        assert(u.subrange(from, from + pat.len()) =~= s.subrange(from, from + pat.len()));
        lemma_first_match_extend(s, t, from + 1, pat);
    }
}

/// Bounds of a match that was found.
pub proof fn lemma_first_match_found(s: Seq<u8>, from: int, pat: Seq<u8>)
    requires
        first_match(s, from, pat) >= 0,
    ensures
        from <= first_match(s, from, pat),
        matches_at(s, first_match(s, from, pat), pat),
    decreases s.len() - from,
{
    if !matches_at(s, from, pat) {
        lemma_first_match_found(s, from + 1, pat);
    }
}

/// Removes the first `n` bytes of `buf`.
pub fn drop_front(buf: &mut Vec<u8>, n: usize)
    requires
        n <= old(buf)@.len(),
    ensures
        final(buf)@ == old(buf)@.subrange(n as int, old(buf)@.len() as int),
{
    let rest = buf.split_off(n);
    *buf = rest;
}

/// Splits off and returns the first `n` bytes of `buf`.
pub fn take_front(buf: &mut Vec<u8>, n: usize) -> (r: Vec<u8>)
    requires
        n <= old(buf)@.len(),
    ensures
        r@ == old(buf)@.subrange(0, n as int),
        final(buf)@ == old(buf)@.subrange(n as int, old(buf)@.len() as int),
{
    let mut rest = buf.split_off(n);
    std::mem::swap(buf, &mut rest);
    rest
}

} // verus!
