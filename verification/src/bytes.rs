//! Small operations on byte sequences: comparing, copying and finding a
//! delimiter.

use vstd::prelude::*;

verus! {

/// The least index at or after `from` at which `s` holds `b`, or the length
/// of `s` where no such index exists.
pub open spec fn first_from(s: Seq<u8>, b: u8, from: int) -> int
    decreases s.len() - from,
{
    if from < 0 || from >= s.len() {
        s.len() as int
    } else if s[from] == b {
        from
    } else {
        first_from(s, b, from + 1)
    }
}

/// The least index at which `s` holds `b`, or the length of `s` where it
/// holds none.
pub open spec fn first_index(s: Seq<u8>, b: u8) -> int {
    first_from(s, b, 0)
}

/// `first_from` returns the first occurrence: nothing before it is `b`, and
/// it is either an index that holds `b` or the end of the sequence.
pub proof fn lemma_first_from(s: Seq<u8>, b: u8, from: int)
    requires
        0 <= from <= s.len(),
    ensures
        from <= first_from(s, b, from) <= s.len(),
        first_from(s, b, from) < s.len() ==> s[first_from(s, b, from)] == b,
        forall|j: int| from <= j < first_from(s, b, from) ==> s[j] != b,
    decreases s.len() - from,
{
    if from < s.len() && s[from] != b {
        lemma_first_from(s, b, from + 1);
    }
}

/// An index that holds `b`, with no `b` between `from` and it, is the first
/// occurrence at or after `from`.
pub proof fn lemma_first_from_is(s: Seq<u8>, b: u8, from: int, at: int)
    requires
        0 <= from <= at <= s.len(),
        at < s.len() ==> s[at] == b,
        forall|j: int| from <= j < at ==> s[j] != b,
    ensures
        first_from(s, b, from) == at,
    decreases at - from,
{
    if from < at {
        lemma_first_from_is(s, b, from + 1, at);
    }
}

/// Finds the first occurrence of `b` in `s` at or after `from`.
pub fn find_from(s: &[u8], b: u8, from: usize) -> (r: usize)
    requires
        from <= s@.len(),
    ensures
        r == first_from(s@, b, from as int),
        from <= r <= s@.len(),
{
    let mut i: usize = from;
    while i < s.len() && s[i] != b
        invariant
            from <= i <= s@.len(),
            forall|j: int| from <= j < i ==> s@[j] != b,
        decreases s@.len() - i,
    {
        i = i + 1;
    }
    proof {
        lemma_first_from_is(s@, b, from as int, i as int);
    }
    i
}

/// Whether two byte slices hold the same bytes.
pub fn equal(a: &[u8], b: &[u8]) -> (r: bool)
    ensures
        r == (a@ == b@),
{
    if a.len() != b.len() {
        return false;
    }
    let mut i: usize = 0;
    while i < a.len()
        invariant
            a@.len() == b@.len(),
            0 <= i <= a@.len(),
            forall|j: int| 0 <= j < i ==> a@[j] == b@[j],
        decreases a@.len() - i,
    {
        if a[i] != b[i] {
            return false;
        }
        i = i + 1;
    }
    assert(a@ =~= b@);
    true
}

/// Appends the bytes of `s` from `from` up to `to` to `out`.
pub fn append_range(out: &mut Vec<u8>, s: &[u8], from: usize, to: usize)
    requires
        from <= to <= s@.len(),
    ensures
        final(out)@ == old(out)@ + s@.subrange(from as int, to as int),
{
    let mut i: usize = from;
    while i < to
        invariant
            from <= i <= to <= s@.len(),
            out@ == old(out)@ + s@.subrange(from as int, i as int),
        decreases to - i,
    {
        out.push(s[i]);
        i = i + 1;
        assert(out@ =~= old(out)@ + s@.subrange(from as int, i as int));
    }
}

/// The bytes of `s` from `from` up to `to`, as a vector of their own.
pub fn copy_range(s: &[u8], from: usize, to: usize) -> (r: Vec<u8>)
    requires
        from <= to <= s@.len(),
    ensures
        r@ == s@.subrange(from as int, to as int),
{
    let mut r: Vec<u8> = Vec::new();
    append_range(&mut r, s, from, to);
    assert(r@ =~= s@.subrange(from as int, to as int));
    r
}

} // verus!
