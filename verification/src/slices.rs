//! Copies of parts of slices.
use vstd::prelude::*;

verus! {

/// Returns a copy of a slice.
pub fn copied<T: Copy>(s: &[T]) -> (r: Vec<T>)
    ensures
        r@ == s@,
{
    copied_range(s, 0, s.len())
}

/// Returns a copy of the entries from `start` up to `end`.
pub fn copied_range<T: Copy>(s: &[T], start: usize, end: usize) -> (r: Vec<T>)
    requires
        start <= end <= s@.len(),
    ensures
        r@ == s@.subrange(start as int, end as int),
{
    let mut out: Vec<T> = Vec::with_capacity(end - start);
    let mut i: usize = start;
    while i < end
        invariant
            start <= i <= end <= s@.len(),
            out@ == s@.subrange(start as int, i as int),
        decreases end - i,
    {
        out.push(s[i]);
        i = i + 1;
        assert(out@ =~= s@.subrange(start as int, i as int));
    }
    out
}

/// Returns `n` copies of a value.
pub fn filled_with<T: Copy>(v: T, n: usize) -> (r: Vec<T>)
    ensures
        r@ == Seq::new(n as nat, |i: int| v),
{
    let mut out: Vec<T> = Vec::with_capacity(n);
    let mut i: usize = 0;
    while i < n
        invariant
            i <= n,
            out@ == Seq::new(i as nat, |j: int| v),
        decreases n - i,
    {
        out.push(v);
        i = i + 1;
        assert(out@ =~= Seq::new(i as nat, |j: int| v));
    }
    out
}

/// Takes the first `n` entries out of a vector.
pub fn take_front<T>(v: &mut Vec<T>, n: usize) -> (r: Vec<T>)
    requires
        n <= old(v)@.len(),
    ensures
        r@ == old(v)@.take(n as int),
        final(v)@ == old(v)@.skip(n as int),
{
    let mut rest: Vec<T> = v.split_off(n);
    std::mem::swap(v, &mut rest);
    assert(rest@ =~= old(v)@.take(n as int));
    assert(v@ =~= old(v)@.skip(n as int));
    rest
}

/// Takes the last `n` entries out of a vector.
pub fn take_back<T>(v: &mut Vec<T>, n: usize) -> (r: Vec<T>)
    requires
        n <= old(v)@.len(),
    ensures
        r@ == old(v)@.skip(old(v)@.len() - n),
        final(v)@ == old(v)@.take(old(v)@.len() - n),
{
    let at: usize = v.len() - n;
    let r: Vec<T> = v.split_off(at);
    assert(r@ =~= old(v)@.skip(at as int));
    assert(v@ =~= old(v)@.take(at as int));
    r
}

} // verus!
