//! Binary trees over a sequence of leaves, in which the left subtree of every
//! node is complete and at least as large as the right one.
use vstd::arithmetic::power2::*;
use vstd::prelude::*;

verus! {

/// The largest power of two below `n`, for `n` of at least two.
pub open spec fn split(n: nat) -> nat
    decreases n,
{
    if n <= 2 {
        1
    } else {
        2 * split((n + 1) / 2)
    }
}

/// The root of the tree over some leaves, where `f` makes a parent of its
/// children.
pub open spec fn tree<T>(s: Seq<T>, f: spec_fn(T, T) -> T) -> T
    decreases s.len(),
{
    if s.len() <= 1 {
        s[0]
    } else {
        let l = split(s.len()) as int;
        if 0 < l < s.len() {
            f(tree(s.take(l), f), tree(s.skip(l), f))
        } else {
            s[0]
        }
    }
}

/// The roots of the complete trees into which some leaves divide, the largest
/// first.
pub open spec fn stack_of<T>(s: Seq<T>, f: spec_fn(T, T) -> T) -> Seq<T>
    decreases s.len(),
{
    if s.len() == 0 {
        Seq::empty()
    } else {
        let l = split(s.len() + 1) as int;
        if 0 < l <= s.len() {
            seq![tree(s.take(l), f)] + stack_of(s.skip(l), f)
        } else {
            Seq::empty()
        }
    }
}

/// The parents along the right edge of a tree, from a leaf up.
pub open spec fn fold<T>(stack: Seq<T>, leaf: T, f: spec_fn(T, T) -> T) -> T
    decreases stack.len(),
{
    if stack.len() == 0 {
        leaf
    } else {
        f(stack[0], fold(stack.skip(1), leaf, f))
    }
}

/// `split` is a power of two, and `n` is above it but not above its double.
pub proof fn lemma_split(n: nat) -> (k: nat)
    requires
        n >= 2,
    ensures
        split(n) == pow2(k),
        split(n) < n <= 2 * split(n),
    decreases n,
{
    lemma2_to64();
    if n > 2 {
        let k = lemma_split((n + 1) / 2);
        lemma_pow2_unfold(k + 1);
        k + 1
    } else {
        0
    }
}

/// There is one such power of two.
pub proof fn lemma_split_is(n: nat, k: nat)
    requires
        pow2(k) < n <= 2 * pow2(k),
    ensures
        split(n) == pow2(k),
{
    lemma_pow2_pos(k);
    let j = lemma_split(n);
    lemma_pow2_unfold(k + 1);
    lemma_pow2_unfold(j + 1);
    if j < k {
        if j + 1 < k {
            lemma_pow2_strictly_increases(j + 1, k);
        }
    } else if k < j {
        if k + 1 < j {
            lemma_pow2_strictly_increases(k + 1, j);
        }
    }
}

/// Two complete trees of the same size make one.
pub proof fn lemma_merge<T>(s: Seq<T>, k: nat, f: spec_fn(T, T) -> T)
    requires
        s.len() == 2 * pow2(k),
    ensures
        tree(s, f) == f(tree(s.take(pow2(k) as int), f), tree(s.skip(pow2(k) as int), f)),
{
    lemma_pow2_pos(k);
    lemma_split_is(s.len(), k);
}

/// The last of the complete trees, where their sizes are multiples of a power of
/// two and the number of leaves is an odd multiple.
pub proof fn lemma_stack_last<T>(s: Seq<T>, q: nat, j: nat, f: spec_fn(T, T) -> T)
    requires
        s.len() == q * pow2(j),
        q % 2 == 1,
    ensures
        s.len() >= pow2(j),
        stack_of(s, f) == stack_of(s.take(s.len() - pow2(j)), f).push(
            tree(s.skip(s.len() - pow2(j)), f),
        ),
    decreases s.len(),
{
    let p = pow2(j);
    let n = s.len();
    lemma_pow2_pos(j);
    assert(n >= p) by (nonlinear_arith)
        requires
            n == q * p,
            q >= 1,
    ;
    if q == 1 {
        assert(n == p) by (nonlinear_arith)
            requires
                n == q * p,
                q == 1,
        ;
        lemma_split_is((n + 1) as nat, j);
        assert(s.take(p as int) =~= s);
        assert(s.skip(0) =~= s);
        assert(s.skip(p as int) =~= Seq::empty());
        assert(s.take(0) =~= Seq::empty());
        assert(stack_of(s, f) =~= stack_of(s.take(0), f).push(tree(s.skip(0), f)));
    } else {
        assert(q >= 3);
        assert(n >= 3 * p) by (nonlinear_arith)
            requires
                n == q * p,
                q >= 3,
        ;
        let k = lemma_split((n + 1) as nat);
        let l = pow2(k);
        lemma_pow2_pos(k);
        if k <= j {
            if k < j {
                lemma_pow2_strictly_increases(k, j);
            }
            assert(false);
        }
        let d = (k - j) as nat;
        lemma_pow2_adds(j, d);
        lemma_pow2_pos((d - 1) as nat);
        lemma_pow2_unfold(d);
        let e = pow2(d);
        assert(l == p * e);
        assert(e % 2 == 0);
        assert(e <= q) by (nonlinear_arith)
            requires
                p * e <= q * p,
                p > 0,
        ;
        let r = (q - e) as nat;
        assert(r % 2 == 1);
        assert(n - l == r * p) by (nonlinear_arith)
            requires
                n == q * p,
                l == p * e,
                r == q - e,
        ;
        let t = s.skip(l as int);
        lemma_stack_last(t, r, j, f);
        let front = s.take(n - p);
        assert(n - p >= l) by (nonlinear_arith)
            requires
                n - l == r * p,
                r >= 1,
        ;
        lemma_split_is((front.len() + 1) as nat, k);
        assert(front.take(l as int) =~= s.take(l as int));
        assert(front.skip(l as int) =~= t.take(t.len() - p));
        assert(t.skip(t.len() - p) =~= s.skip(n - p));
        assert(stack_of(s, f) =~= stack_of(front, f).push(tree(s.skip(n - p), f)));
    }
}

/// The parents along the right edge make the tree of all leaves.
pub proof fn lemma_fold<T>(s: Seq<T>, leaf: T, f: spec_fn(T, T) -> T)
    ensures
        fold(stack_of(s, f), leaf, f) == tree(s.push(leaf), f),
    decreases s.len(),
{
    let n = s.len();
    let all = s.push(leaf);
    if n > 0 {
        let k = lemma_split((n + 1) as nat);
        lemma_pow2_pos(k);
        let l = split((n + 1) as nat) as int;
        lemma_fold(s.skip(l), leaf, f);
        assert(all.take(l) =~= s.take(l));
        assert(all.skip(l) =~= s.skip(l).push(leaf));
        let stack = stack_of(s, f);
        assert(stack.skip(1) =~= stack_of(s.skip(l), f));
        assert(stack[0] == tree(s.take(l), f));
    }
}

/// The number of complete trees into which `n` leaves divide.
pub open spec fn height(n: nat) -> nat
    decreases n,
{
    if n == 0 {
        0
    } else {
        let l = split(n + 1);
        if 0 < l <= n {
            1 + height((n - l) as nat)
        } else {
            0
        }
    }
}

/// The number of complete trees depends on the number of leaves alone.
pub proof fn lemma_height<T>(s: Seq<T>, f: spec_fn(T, T) -> T)
    ensures
        stack_of(s, f).len() == height(s.len()),
    decreases s.len(),
{
    if s.len() > 0 {
        let k = lemma_split((s.len() + 1) as nat);
        lemma_pow2_pos(k);
        lemma_height(s.skip(split((s.len() + 1) as nat) as int), f);
    }
}

/// Every complete tree but the last one, for an odd multiple of a power of two.
pub proof fn lemma_height_last(q: nat, j: nat)
    requires
        q % 2 == 1,
    ensures
        q * pow2(j) >= pow2(j),
        height(q * pow2(j)) == height((q * pow2(j) - pow2(j)) as nat) + 1,
{
    let n = q * pow2(j);
    let s = Seq::new(n, |i: int| i);
    let f = |a: int, b: int| a;
    lemma_stack_last(s, q, j, f);
    lemma_height(s, f);
    lemma_height(s.take(n - pow2(j)), f);
}

/// The first complete tree and the others.
pub proof fn lemma_stack_first<T>(s: Seq<T>, f: spec_fn(T, T) -> T)
    requires
        s.len() > 0,
    ensures
        0 < split((s.len() + 1) as nat) <= s.len(),
        stack_of(s, f).len() > 0,
        stack_of(s, f)[0] == tree(s.take(split((s.len() + 1) as nat) as int), f),
        stack_of(s, f).skip(1) == stack_of(s.skip(split((s.len() + 1) as nat) as int), f),
{
    let k = lemma_split((s.len() + 1) as nat);
    lemma_pow2_pos(k);
    let l = split((s.len() + 1) as nat) as int;
    assert(stack_of(s, f).skip(1) =~= stack_of(s.skip(l), f));
}

/// The tree over one leaf is the leaf. Over more leaves, the left subtree has the
/// greatest power of two of them that leaves something for the right one.
pub proof fn lemma_tree<T>(s: Seq<T>, f: spec_fn(T, T) -> T, k: nat)
    requires
        s.len() > 0,
    ensures
        s.len() == 1 ==> tree(s, f) == s[0],
        pow2(k) < s.len() <= 2 * pow2(k) ==> tree(s, f) == f(
            tree(s.take(pow2(k) as int), f),
            tree(s.skip(pow2(k) as int), f),
        ),
{
    lemma_pow2_pos(k);
    if pow2(k) < s.len() <= 2 * pow2(k) {
        lemma_split_is(s.len(), k);
    }
}

} // verus!
