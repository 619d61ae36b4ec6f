//! GGM tree.
//!
//! Every node has two children, which a length-doubling pseudo-random function
//! makes of it. The function reaches this module as a closure.
use crate::block::{lemma_xor, Block};
use crate::func::{apply, call, is_function};
use vstd::arithmetic::div_mod::*;
use vstd::arithmetic::power2::*;
use vstd::prelude::*;

verus! {

/// The two children of a node: what the length-doubling function, under the keys
/// zero and one, gives for it.
pub open spec fn doubled<F: Fn((Block, Block, Block)) -> [Block; 2]>(prf: F, x: Block) -> [Block;
    2] {
    apply::<(Block, Block, Block), [Block; 2], F>(prf, (Block(0), Block(1), x))
}

/// The children of every node of a layer.
pub open spec fn expanded<F: Fn((Block, Block, Block)) -> [Block; 2]>(prf: F, s: Seq<Block>) -> Seq<Block> {
    Seq::new(2 * s.len(), |i: int| doubled(prf, s[i / 2])@[i % 2])
}

/// Layer `d` of the tree that grows from `seed`.
pub open spec fn full_layer<F: Fn((Block, Block, Block)) -> [Block; 2]>(prf: F, seed: Block, d: nat) -> Seq<Block>
    decreases d,
{
    if d == 0 {
        seq![seed]
    } else {
        expanded(prf, full_layer(prf, seed, (d - 1) as nat))
    }
}

/// The sum of the left (`side` 0) or right (`side` 1) nodes of the first `n`
/// pairs of siblings.
pub open spec fn side_sum(s: Seq<Block>, side: int, n: nat) -> Block
    decreases n,
{
    if n == 0 {
        Block(0)
    } else {
        Block(side_sum(s, side, (n - 1) as nat).0 ^ s[2 * (n - 1) + side].0)
    }
}

/// The other child of the same parent.
pub open spec fn sibling(a: int) -> int {
    if a % 2 == 0 {
        a + 1
    } else {
        a - 1
    }
}

/// A layer with node `a` missing, and its sibling made up of the sum of the
/// nodes on its side.
pub open spec fn recovered(s: Seq<Block>, sum: Block, a: int) -> Seq<Block> {
    let cleared = s.update(a, Block(0)).update(sibling(a), Block(0));
    cleared.update(
        sibling(a),
        Block(sum.0 ^ side_sum(cleared, sibling(a) % 2, s.len() / 2).0),
    )
}

/// The node of layer `d` on the path to leaf `idx`.
pub open spec fn on_path(idx: int, depth: nat, d: nat) -> int {
    idx / pow2((depth - d) as nat) as int
}

/// Layer `d` of the tree that misses the path to leaf `idx`.
pub open spec fn partial_layer<F: Fn((Block, Block, Block)) -> [Block; 2]>(
    prf: F,
    sums: Seq<Block>,
    idx: int,
    depth: nat,
    d: nat,
) -> Seq<Block>
    decreases d,
{
    if d == 0 {
        seq![Block(0)]
    } else {
        recovered(
            expanded(prf, partial_layer(prf, sums, idx, depth, (d - 1) as nat)),
            sums[d - 1],
            on_path(idx, depth, d),
        )
    }
}

proof fn lemma_full_len<F: Fn((Block, Block, Block)) -> [Block; 2]>(prf: F, seed: Block, d: nat)
    ensures
        full_layer(prf, seed, d).len() == pow2(d),
    decreases d,
{
    if d == 0 {
        lemma2_to64();
    } else {
        lemma_full_len(prf, seed, (d - 1) as nat);
        lemma_pow2_unfold(d);
    }
}

proof fn lemma_pow2_le(i: nat, j: nat)
    requires
        i <= j,
    ensures
        0 < pow2(i) <= pow2(j),
{
    lemma_pow2_pos(i);
    if i < j {
        lemma_pow2_strictly_increases(i, j);
    }
}

/// The path goes from a parent to one of its children.
proof fn lemma_path(idx: int, depth: nat, d: nat)
    requires
        0 < d <= depth,
        0 <= idx < pow2(depth),
    ensures
        0 <= on_path(idx, depth, d) < pow2(d),
        on_path(idx, depth, d) / 2 == on_path(idx, depth, (d - 1) as nat),
        0 <= sibling(on_path(idx, depth, d)) < pow2(d),
        sibling(on_path(idx, depth, d)) / 2 == on_path(idx, depth, (d - 1) as nat),
{
    let p = pow2((depth - d) as nat) as int;
    lemma_pow2_pos((depth - d) as nat);
    lemma_pow2_adds(d, (depth - d) as nat);
    lemma_pow2_unfold((depth - d + 1) as nat);
    let a = on_path(idx, depth, d);
    lemma_fundamental_div_mod(idx, p);
    assert(0 <= a < pow2(d)) by (nonlinear_arith)
        requires
            idx == p * a + idx % p,
            0 <= idx % p < p,
            0 <= idx < pow2(d) * p,
            p > 0,
    ;
    assert(idx / (2 * p) == (idx / p) / 2) by {
        lemma_div_denominator(idx, p, 2);
        assert(p * 2 == 2 * p);
    }
    lemma_pow2_unfold(d);
}

proof fn lemma_partial_len<F: Fn((Block, Block, Block)) -> [Block; 2]>(
    prf: F,
    sums: Seq<Block>,
    idx: int,
    depth: nat,
    d: nat,
)
    requires
        d <= depth,
        0 <= idx < pow2(depth),
    ensures
        partial_layer(prf, sums, idx, depth, d).len() == pow2(d),
    decreases d,
{
    if d == 0 {
        lemma2_to64();
    } else {
        lemma_path(idx, depth, d);
        lemma_partial_len(prf, sums, idx, depth, (d - 1) as nat);
        lemma_pow2_unfold(d);
    }
}

/// Clearing two siblings takes one of them off the sum of its side.
proof fn lemma_side_cleared(s: Seq<Block>, a: int, n: nat)
    requires
        0 <= a < s.len(),
        s.len() % 2 == 0,
        2 * n <= s.len(),
    ensures
        ({
            let sib = sibling(a);
            let cleared = s.update(a, Block(0)).update(sib, Block(0));
            side_sum(s, sib % 2, n).0 == side_sum(cleared, sib % 2, n).0 ^ if sib < 2 * n {
                s[sib].0
            } else {
                0
            }
        }),
    decreases n,
{
    let sib = sibling(a);
    let side = sib % 2;
    let cleared = s.update(a, Block(0)).update(sib, Block(0));
    if n == 0 {
        lemma_xor(0, 0, 0);
    } else {
        lemma_side_cleared(s, a, (n - 1) as nat);
        let x = side_sum(s, side, (n - 1) as nat).0;
        let y = side_sum(cleared, side, (n - 1) as nat).0;
        let k = 2 * (n - 1) + side;
        if k == sib {
            assert(cleared[k].0 == 0);
            lemma_xor(y, 0, 0);
            lemma_xor(x, 0, 0);
        } else {
            assert(k != a);
            assert(cleared[k] == s[k]);
            let z = if sib < 2 * n {
                s[sib].0
            } else {
                0
            };
            lemma_xor(y, z, s[k].0);
            lemma_xor(z, s[k].0, 0);
            lemma_xor(y, s[k].0, z);
        }
    }
}

/// Of a full tree, the sums of the siblings on the path to a leaf, layer by
/// layer, recover every node but those on the path, which are zero.
pub proof fn lemma_partial<F: Fn((Block, Block, Block)) -> [Block; 2]>(
    prf: F,
    seed: Block,
    sums: Seq<Block>,
    idx: int,
    depth: nat,
    d: nat,
)
    requires
        d <= depth,
        0 <= idx < pow2(depth),
        forall|n: nat|
            0 < n <= depth ==> #[trigger] sums[n - 1] == side_sum(
                full_layer(prf, seed, n),
                sibling(on_path(idx, depth, n)) % 2,
                full_layer(prf, seed, n).len() / 2,
            ),
    ensures
        partial_layer(prf, sums, idx, depth, d) == full_layer(prf, seed, d).update(
            on_path(idx, depth, d),
            Block(0),
        ),
    decreases d,
{
    if d == 0 {
        lemma_pow2_pos(depth);
        assert(on_path(idx, depth, 0) == 0) by {
            lemma_basic_div(idx, pow2(depth) as int);
        }
        assert(partial_layer(prf, sums, idx, depth, 0) =~= full_layer(prf, seed, 0).update(
            0,
            Block(0),
        ));
    } else {
        let c = (d - 1) as nat;
        lemma_partial(prf, seed, sums, idx, depth, c);
        lemma_path(idx, depth, d);
        lemma_full_len(prf, seed, d);
        lemma_full_len(prf, seed, c);
        lemma_pow2_unfold(d);
        let a = on_path(idx, depth, d);
        let sib = sibling(a);
        let full = full_layer(prf, seed, d);
        let base = expanded(prf, partial_layer(prf, sums, idx, depth, c));
        let cleared = base.update(a, Block(0)).update(sib, Block(0));
        assert(cleared =~= full.update(a, Block(0)).update(sib, Block(0))) by {
            assert forall|i: int| 0 <= i < full.len() && i != a && i != sib implies base[i]
                == full[i] by {
                assert(i / 2 != a / 2);
            }
        }
        lemma_side_cleared(full, a, full.len() / 2);
        let rest = side_sum(cleared, sib % 2, full.len() / 2).0;
        assert(sums[d - 1].0 == rest ^ full[sib].0);
        lemma_xor(rest, full[sib].0, rest);
        lemma_xor(full[sib].0, rest, rest);
        assert(sums[d - 1].0 ^ rest == full[sib].0);
        assert(recovered(base, sums[d - 1], a) =~= full.update(a, Block(0)));
    }
}

/// The number of nodes in the layers before layer `n`, which is the number of
/// its first node.
pub open spec fn layer_start(n: nat) -> int {
    pow2(n) - 1
}

/// The layers tile the tree: the first one is the root, each one starts where the
/// one before ends and is twice as wide, and every node below the start of a
/// layer is in exactly one of the layers before it.
pub proof fn lemma_layers_tile(d: nat, x: int)
    requires
        0 <= x < layer_start(d),
    ensures
        layer_start(0) == 0,
        layer_start(1) == 1,
        forall|n: nat| #[trigger] layer_start(n + 1) == layer_start(n) + pow2(n),
        exists|n: nat|
            n < d && #[trigger] layer_start(n) <= x < layer_start(n) + pow2(n),
        forall|n: nat, m: nat|
            (#[trigger] layer_start(n)) <= x < layer_start(n) + pow2(n) && (#[trigger] layer_start(
                m,
            )) <= x < layer_start(m) + pow2(m) ==> n == m,
    decreases d,
{
    lemma2_to64();
    assert forall|n: nat| #[trigger] layer_start(n + 1) == layer_start(n) + pow2(n) by {
        lemma_pow2_unfold(n + 1);
    }
    let last = (d - 1) as nat;
    assert(layer_start(d) == layer_start(last + 1));
    if x >= layer_start(last) {
        assert(layer_start(last) <= x < layer_start(last) + pow2(last));
    } else {
        lemma_layers_tile(last, x);
    }
    assert forall|n: nat, m: nat|
        (#[trigger] layer_start(n)) <= x < layer_start(n) + pow2(n) && (#[trigger] layer_start(m))
            <= x < layer_start(m) + pow2(m) implies n == m by {
        if n < m {
            lemma_pow2_le(n + 1, m);
            assert(layer_start(n + 1) == layer_start(n) + pow2(n));
        } else if m < n {
            lemma_pow2_le(m + 1, n);
            assert(layer_start(m + 1) == layer_start(m) + pow2(m));
        }
    }
}

/// Returns the width of the tree at the given depth.
pub fn width(n: usize) -> (w: usize)
    requires
        pow2(n as nat) <= usize::MAX,
    ensures
        w == pow2(n as nat),
{
    proof {
        lemma2_to64();
        if n >= usize::BITS {
            lemma_pow2_le(usize::BITS as nat, n as nat);
        }
        vstd::bits::lemma_usize_shl_is_mul(1, n);
    }
    1usize << n
}

/// Returns the first node at the given layer, and the node after its last.
pub fn layer(n: usize) -> (r: (usize, usize))
    requires
        pow2((n + 1) as nat) <= usize::MAX,
    ensures
        r.0 == layer_start(n as nat),
        r.1 == layer_start((n + 1) as nat),
{
    proof {
        lemma_pow2_pos(n as nat);
        lemma_pow2_unfold((n + 1) as nat);
    }
    let start: usize = width(n) - 1;
    (start, start + width(n))
}

/// Returns the children of the nodes of a layer.
fn expand<F: Fn((Block, Block, Block)) -> [Block; 2]>(prf: &F, parents: &Vec<Block>) -> (children: Vec<Block>)
    requires
        is_function::<(Block, Block, Block), [Block; 2], F>(*prf),
        2 * parents@.len() <= usize::MAX,
    ensures
        children@ == expanded(*prf, parents@),
{
    let mut children: Vec<Block> = Vec::with_capacity(2 * parents.len());
    let mut i: usize = 0;
    while i < parents.len()
        invariant
            is_function::<(Block, Block, Block), [Block; 2], F>(*prf),
            2 * parents@.len() <= usize::MAX,
            i <= parents@.len(),
            children@ == expanded(*prf, parents@).take(2 * i as int),
        decreases parents@.len() - i,
    {
        let pair: [Block; 2] = call(prf, (Block(0), Block(1), parents[i]));
        children.push(pair[0]);
        children.push(pair[1]);
        i = i + 1;
        assert(children@ =~= expanded(*prf, parents@).take(2 * i as int));
    }
    assert(expanded(*prf, parents@).take(2 * parents@.len() as int) =~= expanded(*prf, parents@));
    children
}

/// Recovers the value of the sibling node.
fn recover(layer: &mut Vec<Block>, sum: Block, offset: usize, select: bool)
    requires
        old(layer)@.len() % 2 == 0,
        offset % 2 == 0,
        offset + 1 < old(layer)@.len(),
    ensures
        final(layer)@ == recovered(old(layer)@, sum, offset + if select { 1int } else { 0int }),
{
    let ghost s = layer@;
    let ghost a = offset + if select { 1int } else { 0int };
    let missing: usize = if select { offset + 1 } else { offset };
    let other: usize = if select { offset } else { offset + 1 };
    layer.set(missing, Block::zero());
    layer.set(other, Block::zero());

    // If `select` is a left node, we fold all the right nodes and vice versa.
    let side: usize = if select { 0 } else { 1 };
    let mut value: Block = sum;
    let ghost cleared = layer@;
    proof {
        assert(cleared =~= s.update(a, Block(0)).update(sibling(a), Block(0)));
        lemma_xor(sum.0, 0, 0);
    }
    let pairs: usize = layer.len() / 2;
    let mut n: usize = 0;
    while n < pairs
        invariant
            layer@ == cleared,
            2 * pairs == cleared.len(),
            cleared.len() <= usize::MAX,
            n <= pairs,
            side < 2,
            value.0 == sum.0 ^ side_sum(cleared, side as int, n as nat).0,
        decreases pairs - n,
    {
        proof {
            lemma_xor(
                sum.0,
                side_sum(cleared, side as int, n as nat).0,
                cleared[2 * n + side].0,
            );
        }
        value = Block(value.0 ^ layer[2 * n + side].0);
        n = n + 1;
    }

    // Set the value of the sibling.
    layer.set(other, value);
}

/// GGM tree.
pub struct GgmTree<'a> {
    depth: usize,
    buf: Vec<Block>,
    leaves: &'a [Block],
}

impl<'a> GgmTree<'a> {
    /// The layers above the leaves stand in the buffer one after another.
    pub closed spec fn wf(self) -> bool {
        &&& self.depth > 0
        &&& self.leaves@.len() == pow2(self.depth as nat)
        &&& self.buf@.len() == pow2(self.depth as nat) - 1
    }

    /// The depth of the tree.
    pub closed spec fn height(self) -> nat {
        self.depth as nat
    }

    /// Layer `d`, the root being layer 0.
    pub closed spec fn layer_at(self, d: nat) -> Seq<Block> {
        if d < self.depth {
            self.buf@.subrange(pow2(d) - 1, pow2(d + 1) - 1)
        } else {
            self.leaves@
        }
    }

    /// Creates a new GGM tree.
    ///
    /// # Arguments
    ///
    /// * `prf` - The length-doubling function, of two keys and a block.
    /// * `depth` - The depth of the tree.
    /// * `seed` - The seed of the tree.
    /// * `leaves` - The leaves of the tree.
    pub fn new_from_seed<F: Fn((Block, Block, Block)) -> [Block; 2]>(
        prf: &F,
        depth: usize,
        seed: Block,
        leaves: &'a mut [Block],
    ) -> (r: Self)
        requires
            is_function::<(Block, Block, Block), [Block; 2], F>(*prf),
            depth > 0,
            old(leaves)@.len() == pow2(depth as nat),
        ensures
            r.wf(),
            r.height() == depth,
            forall|d: nat| d <= depth ==> #[trigger] r.layer_at(d) == full_layer(*prf, seed, d),
            final(leaves)@ == full_layer(*prf, seed, depth as nat),
    {
        let count: usize = leaves.len();
        proof {
            lemma_pow2_pos(depth as nat);
        }
        let mut buf: Vec<Block> = Vec::with_capacity(count - 1);
        let mut current: Vec<Block> = Vec::new();
        current.push(seed);
        let mut n: usize = 0;
        proof {
            lemma2_to64();
            assert(current@ =~= full_layer(*prf, seed, 0));
        }
        while n < depth
            invariant
                is_function::<(Block, Block, Block), [Block; 2], F>(*prf),
                count == pow2(depth as nat),
                n <= depth,
                current@ == full_layer(*prf, seed, n as nat),
                buf@.len() == pow2(n as nat) - 1,
                forall|d: nat|
                    d < n ==> #[trigger] buf@.subrange(pow2(d) - 1, pow2(d + 1) - 1)
                        == full_layer(*prf, seed, d),
            decreases depth - n,
        {
            proof {
                lemma_full_len(*prf, seed, n as nat);
                lemma_pow2_unfold((n + 1) as nat);
                lemma_pow2_le((n + 1) as nat, depth as nat);
            }
            let children: Vec<Block> = expand(prf, &current);
            let ghost before = buf@;
            buf.append(&mut current);
            proof {
                assert forall|d: nat| d < n + 1 implies #[trigger] buf@.subrange(
                    pow2(d) - 1,
                    pow2(d + 1) - 1,
                ) == full_layer(*prf, seed, d) by {
                    lemma_pow2_pos(d);
                    if d < n {
                        lemma_pow2_le(d + 1, n as nat);
                        lemma_pow2_unfold(d + 1);
                        assert(before.subrange(pow2(d) - 1, pow2(d + 1) - 1) == full_layer(
                            *prf,
                            seed,
                            d,
                        ));
                        assert(buf@.subrange(pow2(d) - 1, pow2(d + 1) - 1) =~= before.subrange(
                            pow2(d) - 1,
                            pow2(d + 1) - 1,
                        ));
                    } else {
                        assert(buf@.subrange(pow2(d) - 1, pow2(d + 1) - 1) =~= full_layer(
                            *prf,
                            seed,
                            d,
                        ));
                    }
                }
            }
            current = children;
            n = n + 1;
        }
        proof {
            lemma_full_len(*prf, seed, depth as nat);
        }
        let mut i: usize = 0;
        while i < count
            invariant
                i <= count,
                leaves@.len() == count,
                current@.len() == count,
                forall|j: int| 0 <= j < i ==> (#[trigger] leaves@[j]) == current@[j],
            decreases count - i,
        {
            leaves[i] = current[i];
            i = i + 1;
        }
        assert(leaves@ =~= current@);
        GgmTree { depth, buf, leaves }
    }

    /// Recovers a partial GGM tree which is missing a leaf at the given
    /// index. Missing nodes in the tree are set to zero.
    ///
    /// # Arguments
    ///
    /// * `prf` - The length-doubling function, of two keys and a block.
    /// * `depth` - Depth of the tree.
    /// * `sums` - Sum of either the left or the right sibling nodes for each
    ///   layer.
    /// * `idx` - Index of the missing leaf.
    /// * `leaves` - Leaves of the tree.
    pub fn new_partial<F: Fn((Block, Block, Block)) -> [Block; 2]>(
        prf: &F,
        depth: usize,
        sums: &[Block],
        idx: usize,
        leaves: &'a mut [Block],
    ) -> (r: Self)
        requires
            is_function::<(Block, Block, Block), [Block; 2], F>(*prf),
            0 < depth <= 32,
            old(leaves)@.len() == pow2(depth as nat),
            idx < old(leaves)@.len(),
            sums@.len() == depth,
        ensures
            r.wf(),
            r.height() == depth,
            forall|d: nat|
                d <= depth ==> #[trigger] r.layer_at(d) == partial_layer(
                    *prf,
                    sums@,
                    idx as int,
                    depth as nat,
                    d,
                ),
            final(leaves)@ == partial_layer(*prf, sums@, idx as int, depth as nat, depth as nat),
    {
        let count: usize = leaves.len();
        proof {
            lemma_pow2_pos(depth as nat);
        }
        let mut buf: Vec<Block> = Vec::with_capacity(count - 1);
        let mut current: Vec<Block> = Vec::new();
        current.push(Block::zero());
        let mut n: usize = 0;
        proof {
            lemma2_to64();
            assert(current@ =~= partial_layer(*prf, sums@, idx as int, depth as nat, 0));
        }
        while n < depth
            invariant
                is_function::<(Block, Block, Block), [Block; 2], F>(*prf),
                count == pow2(depth as nat),
                idx < count,
                sums@.len() == depth,
                n <= depth,
                current@ == partial_layer(*prf, sums@, idx as int, depth as nat, n as nat),
                buf@.len() == pow2(n as nat) - 1,
                forall|d: nat|
                    d < n ==> #[trigger] buf@.subrange(pow2(d) - 1, pow2(d + 1) - 1)
                        == partial_layer(*prf, sums@, idx as int, depth as nat, d),
            decreases depth - n,
        {
            proof {
                lemma_partial_len(*prf, sums@, idx as int, depth as nat, n as nat);
                lemma_pow2_unfold((n + 1) as nat);
                lemma_pow2_le((n + 1) as nat, depth as nat);
                lemma_pow2_le((depth - n - 1) as nat, depth as nat);
                lemma_path(idx as int, depth as nat, (n + 1) as nat);
            }
            // The node of the next layer that is on the path.
            let on: usize = idx / width(depth - n - 1);
            let select: bool = on % 2 == 1;
            let offset: usize = on - on % 2;
            let mut children: Vec<Block> = expand(prf, &current);
            recover(&mut children, sums[n], offset, select);
            let ghost before = buf@;
            buf.append(&mut current);
            proof {
                assert forall|d: nat| d < n + 1 implies #[trigger] buf@.subrange(
                    pow2(d) - 1,
                    pow2(d + 1) - 1,
                ) == partial_layer(*prf, sums@, idx as int, depth as nat, d) by {
                    lemma_pow2_pos(d);
                    if d < n {
                        lemma_pow2_le(d + 1, n as nat);
                        lemma_pow2_unfold(d + 1);
                        assert(before.subrange(pow2(d) - 1, pow2(d + 1) - 1) == partial_layer(
                            *prf,
                            sums@,
                            idx as int,
                            depth as nat,
                            d,
                        ));
                        assert(buf@.subrange(pow2(d) - 1, pow2(d + 1) - 1) =~= before.subrange(
                            pow2(d) - 1,
                            pow2(d + 1) - 1,
                        ));
                    } else {
                        assert(buf@.subrange(pow2(d) - 1, pow2(d + 1) - 1) =~= partial_layer(
                            *prf,
                            sums@,
                            idx as int,
                            depth as nat,
                            d,
                        ));
                    }
                }
            }
            current = children;
            n = n + 1;
        }
        proof {
            lemma_partial_len(*prf, sums@, idx as int, depth as nat, depth as nat);
        }
        let mut i: usize = 0;
        while i < count
            invariant
                i <= count,
                leaves@.len() == count,
                current@.len() == count,
                forall|j: int| 0 <= j < i ==> (#[trigger] leaves@[j]) == current@[j],
            decreases count - i,
        {
            leaves[i] = current[i];
            i = i + 1;
        }
        assert(leaves@ =~= current@);
        GgmTree { depth, buf, leaves }
    }

    /// Returns the root of the tree.
    pub fn root(&self) -> (r: &Block)
        requires
            self.wf(),
        ensures
            self.layer_at(0) == seq![*r],
    {
        proof {
            lemma2_to64();
            lemma_pow2_le(1, self.depth as nat);
            assert(self.layer_at(0) =~= seq![self.buf@[0]]);
        }
        &self.buf[0]
    }

    /// Returns the depth of the tree.
    pub fn depth(&self) -> (d: usize)
        ensures
            d == self.height(),
    {
        self.depth
    }

    /// Returns the layer at the given depth.
    pub fn layer(&self, depth: usize) -> (r: Option<&[Block]>)
        requires
            self.wf(),
        ensures
            r is Some <==> depth <= self.height(),
            r is Some ==> r->Some_0@ == self.layer_at(depth as nat),
    {
        if depth < self.depth {
            proof {
                lemma_pow2_le((depth + 1) as nat, self.depth as nat);
                lemma_pow2_le(depth as nat, (depth + 1) as nat);
            }
            let count: usize = self.leaves.len();
            let (start, end) = layer(depth);
            Some(vstd::slice::slice_subrange(self.buf.as_slice(), start, end))
        } else if depth == self.depth {
            Some(self.leaves)
        } else {
            None
        }
    }

    /// Returns the layers of the GGM tree, the root first.
    pub fn iter_layers(&self) -> (r: Vec<&[Block]>)
        requires
            self.wf(),
        ensures
            r@.len() == self.height() + 1,
            forall|d: int|
                0 <= d < r@.len() ==> (#[trigger] r@[d])@ == self.layer_at(d as nat),
    {
        let mut out: Vec<&[Block]> = Vec::new();
        let mut d: usize = 0;
        while d < self.depth
            invariant
                self.wf(),
                d <= self.depth,
                out@.len() == d,
                forall|e: int| 0 <= e < d ==> (#[trigger] out@[e])@ == self.layer_at(e as nat),
            decreases self.depth - d,
        {
            if let Some(l) = self.layer(d) {
                out.push(l);
            }
            d = d + 1;
        }
        out.push(self.leaves);
        out
    }

    /// Returns the sums of the left and right nodes for each layer below the
    /// root.
    pub fn layer_sums(&self) -> (r: Vec<[Block; 2]>)
        requires
            self.wf(),
        ensures
            r@.len() == self.height(),
            forall|d: int, side: int|
                0 <= d < r@.len() && 0 <= side < 2 ==> (#[trigger] r@[d]@[side]) == side_sum(
                    self.layer_at((d + 1) as nat),
                    side,
                    self.layer_at((d + 1) as nat).len() / 2,
                ),
    {
        let layers: Vec<&[Block]> = self.iter_layers();
        let mut out: Vec<[Block; 2]> = Vec::new();
        let mut d: usize = 1;
        while d < layers.len()
            invariant
                self.wf(),
                layers@.len() == self.height() + 1,
                forall|e: int|
                    0 <= e < layers@.len() ==> (#[trigger] layers@[e])@ == self.layer_at(e as nat),
                1 <= d <= layers@.len(),
                out@.len() == d - 1,
                forall|e: int, side: int|
                    0 <= e < out@.len() && 0 <= side < 2 ==> (#[trigger] out@[e]@[side])
                        == side_sum(
                        self.layer_at((e + 1) as nat),
                        side,
                        self.layer_at((e + 1) as nat).len() / 2,
                    ),
            decreases layers@.len() - d,
        {
            let layer: &[Block] = layers[d];
            let pairs: usize = layer.len() / 2;
            let mut left: Block = Block::zero();
            let mut right: Block = Block::zero();
            let mut n: usize = 0;
            while n < pairs
                invariant
                    pairs == layer@.len() / 2,
                    layer@.len() <= usize::MAX,
                    n <= pairs,
                    left == side_sum(layer@, 0, n as nat),
                    right == side_sum(layer@, 1, n as nat),
                decreases pairs - n,
            {
                left = Block(left.0 ^ layer[2 * n].0);
                right = Block(right.0 ^ layer[2 * n + 1].0);
                n = n + 1;
            }
            out.push([left, right]);
            d = d + 1;
        }
        out
    }

    /// Returns the leaves of the GGM tree.
    pub fn leaves(&self) -> (r: &[Block])
        requires
            self.wf(),
        ensures
            r@ == self.layer_at(self.height()),
    {
        self.leaves
    }
}

/// The root is the seed, and the children of node `i` of a layer are nodes `2 * i`
/// and `2 * i + 1` of the next one: what the length-doubling function, under the
/// keys zero and one, makes of it.
pub proof fn lemma_children<F: Fn((Block, Block, Block)) -> [Block; 2]>(
    prf: F,
    seed: Block,
    d: nat,
    i: int,
    side: int,
)
    requires
        0 <= i < pow2(d),
        0 <= side < 2,
    ensures
        full_layer(prf, seed, 0) == seq![seed],
        full_layer(prf, seed, d).len() == pow2(d),
        full_layer(prf, seed, d + 1).len() == 2 * pow2(d),
        full_layer(prf, seed, d + 1)[2 * i + side] == apply::<
            (Block, Block, Block),
            [Block; 2],
            F,
        >(prf, (Block(0), Block(1), full_layer(prf, seed, d)[i]))@[side],
{
    lemma_full_len(prf, seed, d);
    lemma_full_len(prf, seed, d + 1);
    lemma_pow2_unfold(d + 1);
    assert((2 * i + side) / 2 == i && (2 * i + side) % 2 == side);
}

/// A node counts in the sum of its side, and in no other: adding to it adds as much
/// to that sum. Where all nodes are zero, so is the sum.
pub proof fn lemma_side_change(s: Seq<Block>, side: int, n: nat, i: int, at: int, d: u128)
    requires
        0 <= side < 2,
        0 <= at < 2,
        0 <= i < n,
        2 * n <= s.len(),
    ensures
        side_sum(s.update(2 * i + at, Block(s[2 * i + at].0 ^ d)), side, n).0 == side_sum(
            s,
            side,
            n,
        ).0 ^ if at == side {
            d
        } else {
            0
        },
        (forall|k: int| 0 <= k < s.len() ==> (#[trigger] s[k]).0 == 0) ==> side_sum(s, side, n).0
            == 0,
    decreases n,
{
    let t = s.update(2 * i + at, Block(s[2 * i + at].0 ^ d));
    let m = (n - 1) as nat;
    let a = side_sum(s, side, m).0;
    let b = s[2 * m + side].0;
    lemma_xor(a, b, d);
    lemma_xor(a, d, b);
    lemma_xor(d, b, 0);
    lemma_xor(b, d, 0);
    lemma_xor(a ^ b, 0, 0);
    lemma_xor(a, 0, 0);
    if i < m {
        lemma_side_change(s, side, m, i, at, d);
    } else {
        lemma_side_same(s, t, side, m);
        lemma_side_zero(s, side, m);
    }
}

proof fn lemma_side_same(s: Seq<Block>, t: Seq<Block>, side: int, n: nat)
    requires
        0 <= side < 2,
        2 * n <= s.len(),
        2 * n <= t.len(),
        forall|k: int| 0 <= k < 2 * n ==> s[k] == t[k],
    ensures
        side_sum(s, side, n) == side_sum(t, side, n),
    decreases n,
{
    if n > 0 {
        lemma_side_same(s, t, side, (n - 1) as nat);
    }
}

proof fn lemma_side_zero(s: Seq<Block>, side: int, n: nat)
    requires
        0 <= side < 2,
        2 * n <= s.len(),
    ensures
        (forall|k: int| 0 <= k < s.len() ==> (#[trigger] s[k]).0 == 0) ==> side_sum(s, side, n).0
            == 0,
    decreases n,
{
    lemma_xor(0, 0, 0);
    if n > 0 {
        lemma_side_zero(s, side, (n - 1) as nat);
    }
}

} // verus!
