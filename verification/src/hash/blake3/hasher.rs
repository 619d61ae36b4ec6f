//! Blake3 hasher.
use crate::circuits::blake3::compress;
use crate::circuits::circuit::Circuit;
use crate::hash::blake3::chunk::{
    call_compress, holds_words, is_compress, lemma_holds_kept, Blake3Error, ChainingValue, Chunk,
    Flags, State,
};
use crate::hash::blake3::digest::{
    chunk_bits, chunk_count, digest, inner, iv, leaf, leaves, lemma_leaf_kept, node, parent,
    spec_iv, state_words, CHUNK_SIZE, PARENT, ROOT,
};
use crate::hash::blake3::tree::{
    fold, height, lemma_fold, lemma_height, lemma_height_last, lemma_merge, lemma_stack_first,
    lemma_stack_last, split, stack_of, tree,
};
use crate::hash::serialize::{laid_out, serialize_output};
use crate::hash::words::{bits_of, lemma_words_of, words_of};
use crate::memory::Slice;
use crate::vm::{
    addresses, lemma_push, lemma_values_add, span, values, Valuation, Visibility, Vm, VmError,
};
use std::sync::Arc;
use vstd::arithmetic::power2::*;
use vstd::prelude::*;

verus! {

/// Maximum tree depth supported.
pub const MAX_SUBTREE_DEPTH: usize = 54;

/// The circuit leaves its inputs as they are.
pub open spec fn is_serialize(circ: Circuit) -> bool {
    &&& circ.wf()
    &&& circ.input_count == 256
    &&& circ.output_count == 256
    &&& forall|inputs: Seq<bool>| #[trigger] circ.eval(inputs) == laid_out(false, inputs)
}

/// The chaining values hold the roots of the complete trees over the first `n`
/// chunks of a message.
pub open spec fn stack_holds(
    vm: Vm,
    stack: Seq<ChainingValue>,
    fed: Seq<int>,
    key: Seq<u32>,
    flags: u32,
    n: nat,
) -> bool {
    &&& stack.len() == height(n)
    &&& forall|j: int|
        0 <= j < stack.len() ==> (#[trigger] stack[j]).0.size == 256 && stack[j].0.end()
            <= vm.memory().len()
    &&& forall|env: Valuation, j: int|
        0 <= j < stack.len() && vm.allows(env) ==> #[trigger] values(env, span(stack[j].0))
            == bits_of(stack_of(leaves(values(env, fed), key, flags, n), inner(key, flags))[j])
}

/// Blake3 hasher.
pub struct Blake3 {
    chunk: Chunk,
    initial_cv: ChainingValue,
    cv_stack: Vec<ChainingValue>,
    flags: u32,
    parent_state: State,
    compress: Arc<Circuit>,
    serialize: Arc<Circuit>,
    /// The words of the initial chaining value.
    key: Ghost<Seq<u32>>,
    /// The addresses of all data.
    fed: Ghost<Seq<int>>,
}

impl Blake3 {
    /// The addresses of the data that was added.
    pub closed spec fn message(self) -> Seq<int> {
        self.fed@
    }

    /// The words of the initial chaining value.
    pub closed spec fn key_words(self) -> Seq<u32> {
        self.key@
    }

    /// The flags of every block.
    pub closed spec fn base_flags(self) -> u32 {
        self.flags
    }

    /// The number of chunks that were compressed.
    pub closed spec fn completed(self) -> nat {
        self.chunk.counter as nat
    }

    /// The number of subtrees that wait for their right sibling.
    pub closed spec fn pending(self) -> nat {
        self.cv_stack@.len()
    }

    /// Everything but the chunk and the stack.
    closed spec fn parts_wf(self, vm: Vm) -> bool {
        &&& self.key@.len() == 8
        &&& holds_words(vm, self.initial_cv.0, self.key@)
        &&& holds_words(vm, self.parent_state.0, state_words(0, 64))
        &&& is_compress(*self.compress)
        &&& is_serialize(*self.serialize)
    }

    /// The hasher refers to memory, which holds the chaining values of the data
    /// that was compressed.
    closed spec fn state_wf(self, vm: Vm) -> bool {
        &&& self.parts_wf(vm)
        &&& self.chunk.wf(vm)
        &&& self.chunk.flags == self.flags
        &&& self.chunk.chaining_value == self.initial_cv
        &&& 8192 * self.chunk.counter <= self.fed@.len() <= 8192 * (self.chunk.counter + 1)
        &&& self.chunk.data() == self.fed@.skip(8192 * self.chunk.counter)
        &&& self.cv_stack@.len() <= MAX_SUBTREE_DEPTH
        &&& stack_holds(
            vm,
            self.cv_stack@,
            self.fed@,
            self.key@,
            self.flags,
            self.chunk.counter as nat,
        )
    }

    /// The hasher is in order, and the current chunk is not empty but for the
    /// first one.
    pub closed spec fn wf(self, vm: Vm) -> bool {
        &&& self.state_wf(vm)
        &&& self.chunk.counter > 0 ==> self.fed@.len() > 8192 * self.chunk.counter
    }

    proof fn lemma_parts_kept(self, next: Vm, vm: Vm)
        requires
            next.appends(vm),
            self.parts_wf(vm),
        ensures
            self.parts_wf(next),
    {
        lemma_holds_kept(next, vm, self.initial_cv.0, self.key@);
        lemma_holds_kept(next, vm, self.parent_state.0, state_words(0, 64));
    }

    /// The hasher stays in order while memory grows.
    pub proof fn lemma_kept(self, next: Vm, vm: Vm)
        requires
            next.appends(vm),
            self.wf(vm),
        ensures
            self.wf(next),
    {
        self.lemma_parts_kept(next, vm);
        self.chunk.lemma_kept(next, vm);
        lemma_stack_kept(
            next,
            vm,
            self.cv_stack@,
            self.fed@,
            self.key@,
            self.flags,
            self.chunk.counter as nat,
        );
    }

    fn new_internal(
        vm: &mut Vm,
        initial_cv: [u32; 8],
        initial_cv_vis: Visibility,
        flags: u32,
    ) -> (r: Result<Self, Blake3Error>)
        requires
            old(vm).wf(),
        ensures
            final(vm).wf(),
            final(vm).appends(*old(vm)),
            initial_cv_vis is Public ==> final(vm).openly(*old(vm)),
            r is Ok ==> {
                &&& r->Ok_0.wf(*final(vm))
                &&& r->Ok_0.message() == Seq::<int>::empty()
                &&& r->Ok_0.key_words() == initial_cv@
                &&& r->Ok_0.base_flags() == flags
                &&& r->Ok_0.completed() == 0
                &&& r->Ok_0.pending() == 0
            },
            r is Err ==> r->Err_0 == Blake3Error::Vm(VmError::Memory) && final(vm).exhausted(),
    {
        let ghost vm0 = *vm;
        let ghost key = initial_cv@;
        let cv: ChainingValue = ChainingValue::new(vm, initial_cv_vis, initial_cv)?;
        let ghost vm1 = *vm;
        // Precomputes the state value required for parent chaining value
        // calculation in `parent_cv`.
        let parent_state: State = match State::new(vm, 0, 64) {
            Ok(state) => state,
            Err(e) => {
                proof {
                    vm.lemma_appends(vm1, vm0);
                }
                return Err(e);
            },
        };
        let ghost vm2 = *vm;
        proof {
            vm2.lemma_appends(vm1, vm0);
            lemma_holds_kept(vm2, vm1, cv.0, key);
        }
        let chunk: Chunk = match Chunk::new(vm, cv, flags, 0) {
            Ok(chunk) => chunk,
            Err(e) => {
                proof {
                    vm.lemma_appends(vm2, vm0);
                }
                return Err(e);
            },
        };
        proof {
            vm.lemma_appends(vm2, vm0);
            lemma_holds_kept(*vm, vm2, cv.0, key);
            lemma_holds_kept(*vm, vm2, parent_state.0, state_words(0, 64));
        }
        let circ: Circuit = compress();
        let serialize: Circuit = serialize_output();
        let hasher: Blake3 = Blake3 {
            chunk,
            initial_cv: cv,
            cv_stack: Vec::with_capacity(MAX_SUBTREE_DEPTH),
            flags,
            parent_state,
            compress: Arc::new(circ),
            serialize: Arc::new(serialize),
            key: Ghost(key),
            fed: Ghost(Seq::empty()),
        };
        assert(hasher.chunk.data() =~= hasher.fed@.skip(0));
        Ok(hasher)
    }

    /// Creates a new Blake3 hasher in the default mode.
    pub fn new(vm: &mut Vm) -> (r: Result<Self, Blake3Error>)
        requires
            old(vm).wf(),
        ensures
            final(vm).wf(),
            final(vm).appends(*old(vm)),
            final(vm).openly(*old(vm)),
            r is Ok ==> {
                &&& r->Ok_0.wf(*final(vm))
                &&& r->Ok_0.message() == Seq::<int>::empty()
                &&& r->Ok_0.key_words() == spec_iv()
                &&& r->Ok_0.base_flags() == 0
                &&& r->Ok_0.completed() == 0
                &&& r->Ok_0.pending() == 0
            },
            r is Err ==> r->Err_0 == Blake3Error::Vm(VmError::Memory) && final(vm).exhausted(),
    {
        Self::new_internal(vm, iv(), Visibility::Public, 0)
    }

    fn push_stack(&mut self, cv: ChainingValue) -> (r: Result<(), Blake3Error>)
        ensures
            r is Ok <==> old(self).cv_stack@.len() != MAX_SUBTREE_DEPTH,
            r is Ok ==> final(self).cv_stack@ == old(self).cv_stack@.push(cv),
            r is Err ==> r->Err_0 == Blake3Error::Tree && final(self).cv_stack@ == old(
                self,
            ).cv_stack@,
            final(self).chunk == old(self).chunk,
            final(self).initial_cv == old(self).initial_cv,
            final(self).flags == old(self).flags,
            final(self).parent_state == old(self).parent_state,
            final(self).compress == old(self).compress,
            final(self).serialize == old(self).serialize,
            final(self).key == old(self).key,
            final(self).fed == old(self).fed,
    {
        if self.cv_stack.len() == MAX_SUBTREE_DEPTH {
            return Err(Blake3Error::Tree);
        }
        self.cv_stack.push(cv);
        Ok(())
    }

    /// Creates a parent chaining value from children nodes of chaining values.
    fn parent_cv(
        &self,
        vm: &mut Vm,
        left_child_cv: ChainingValue,
        right_child_cv: ChainingValue,
        is_root: bool,
    ) -> (r: Result<ChainingValue, Blake3Error>)
        requires
            old(vm).wf(),
            self.parts_wf(*old(vm)),
            left_child_cv.0.size == 256,
            left_child_cv.0.end() <= old(vm).memory().len(),
            right_child_cv.0.size == 256,
            right_child_cv.0.end() <= old(vm).memory().len(),
        ensures
            final(vm).wf(),
            final(vm).appends(*old(vm)),
            final(vm).openly(*old(vm)),
            r is Ok ==> {
                &&& r->Ok_0.0.size == 256
                &&& r->Ok_0.0.end() <= final(vm).memory().len()
                &&& forall|env: Valuation| #[trigger]
                    final(vm).allows(env) ==> values(env, span(r->Ok_0.0)) == bits_of(
                        parent(
                            words_of(values(env, span(left_child_cv.0))),
                            words_of(values(env, span(right_child_cv.0))),
                            self.key@,
                            self.flags,
                            is_root,
                        ),
                    )
            },
            r is Err ==> r->Err_0 == Blake3Error::Vm(VmError::Memory) && final(vm).exhausted(),
    {
        let ghost vm0 = *vm;
        let mut flags: u32 = self.flags | PARENT;
        // When the parent is the root.
        if is_root {
            flags = flags | ROOT;
        }
        let flags_state: Flags = Flags::new(vm, flags)?;
        let ghost vm1 = *vm;
        let mut data: Vec<Slice> = Vec::new();
        data.push(left_child_cv.0);
        data.push(right_child_cv.0);
        let ghost given = data@;
        proof {
            self.lemma_parts_kept(vm1, vm0);
            let none = Seq::<Slice>::empty();
            assert(given =~= none.push(left_child_cv.0).push(right_child_cv.0));
            lemma_push(none, left_child_cv.0);
            lemma_push(none.push(left_child_cv.0), right_child_cv.0);
            assert(addresses(given) =~= span(left_child_cv.0) + span(right_child_cv.0));
        }
        let r: Result<ChainingValue, Blake3Error> = call_compress(
            vm,
            &self.compress,
            data,
            self.initial_cv.0,
            self.parent_state.0,
            flags_state.0,
        );
        proof {
            vm.lemma_appends(vm1, vm0);
            if r is Ok {
                assert forall|env: Valuation| #[trigger] vm.allows(env) implies values(
                    env,
                    span(r->Ok_0.0),
                ) == bits_of(
                    parent(
                        words_of(values(env, span(left_child_cv.0))),
                        words_of(values(env, span(right_child_cv.0))),
                        self.key@,
                        self.flags,
                        is_root,
                    ),
                ) by {
                    reveal(node);
                    vm.lemma_allows(vm1, env);
                    lemma_words_of(self.key@);
                    lemma_words_of(state_words(0, 64));
                    lemma_words_of(seq![flags]);
                    let l = values(env, span(left_child_cv.0));
                    let r = values(env, span(right_child_cv.0));
                    lemma_values_add(env, span(left_child_cv.0), span(right_child_cv.0));
                    lemma_words_add(l, r);
                }
            }
        }
        r
    }
}

/// The words that adjoining bits make.
proof fn lemma_words_add(a: Seq<bool>, b: Seq<bool>)
    requires
        a.len() % 32 == 0,
        b.len() % 32 == 0,
    ensures
        words_of(a + b) == words_of(a) + words_of(b),
{
    let n = (a.len() / 32) as int;
    assert forall|i: int| 0 <= i < (a + b).len() / 32 implies words_of(a + b)[i] == (words_of(a)
        + words_of(b))[i] by {
        if i < n {
            assert forall|k: int| 0 <= k < 32 implies #[trigger] (a + b)[32 * i + k] == a[32 * i
                + k] by {}
            crate::hash::words::lemma_word_at(a + b, i, a, i);
        } else {
            assert forall|k: int| 0 <= k < 32 implies #[trigger] (a + b)[32 * i + k] == b[32 * (i
                - n) + k] by {}
            crate::hash::words::lemma_word_at(a + b, i, b, i - n);
        }
    }
    assert(words_of(a + b) =~= words_of(a) + words_of(b));
}

/// The stack keeps what it holds.
proof fn lemma_stack_kept(
    next: Vm,
    vm: Vm,
    stack: Seq<ChainingValue>,
    fed: Seq<int>,
    key: Seq<u32>,
    flags: u32,
    n: nat,
)
    requires
        next.appends(vm),
        stack_holds(vm, stack, fed, key, flags, n),
    ensures
        stack_holds(next, stack, fed, key, flags, n),
{
    assert forall|env: Valuation, j: int|
        0 <= j < stack.len() && next.allows(env) implies #[trigger] values(env, span(stack[j].0))
        == bits_of(
        stack_of(leaves(values(env, fed), key, flags, n), inner(key, flags))[j],
    ) by {
        next.lemma_allows(vm, env);
    }
}

impl Blake3 {
    /// Adds the chaining value of a chunk to the stack.
    fn add_chunk_chaining_value(
        &mut self,
        vm: &mut Vm,
        new_cv: ChainingValue,
        total_chunks: u64,
    ) -> (r: Result<(), Blake3Error>)
        requires
            old(vm).wf(),
            old(self).parts_wf(*old(vm)),
            total_chunks >= 1,
            old(self).cv_stack@.len() <= MAX_SUBTREE_DEPTH,
            stack_holds(
                *old(vm),
                old(self).cv_stack@,
                old(self).fed@,
                old(self).key@,
                old(self).flags,
                (total_chunks - 1) as nat,
            ),
            new_cv.0.size == 256,
            new_cv.0.end() <= old(vm).memory().len(),
            forall|env: Valuation| #[trigger]
                old(vm).allows(env) ==> values(env, span(new_cv.0)) == bits_of(
                    leaf(
                        values(env, old(self).fed@),
                        old(self).key@,
                        old(self).flags,
                        total_chunks - 1,
                    ),
                ),
        ensures
            final(vm).wf(),
            final(vm).appends(*old(vm)),
            final(vm).openly(*old(vm)),
            final(self).chunk == old(self).chunk,
            final(self).initial_cv == old(self).initial_cv,
            final(self).flags == old(self).flags,
            final(self).parent_state == old(self).parent_state,
            final(self).compress == old(self).compress,
            final(self).serialize == old(self).serialize,
            final(self).key == old(self).key,
            final(self).fed == old(self).fed,
            r is Ok ==> {
                &&& height(total_chunks as nat) <= MAX_SUBTREE_DEPTH
                &&& stack_holds(
                    *final(vm),
                    final(self).cv_stack@,
                    old(self).fed@,
                    old(self).key@,
                    old(self).flags,
                    total_chunks as nat,
                )
            },
            r is Err ==> match r->Err_0 {
                Blake3Error::Vm(e) => e == VmError::Memory && final(vm).exhausted(),
                Blake3Error::Tree => height(total_chunks as nat) > MAX_SUBTREE_DEPTH,
            },
    {
        let ghost vm0 = *vm;
        let ghost start = *self;
        let ghost fed = self.fed@;
        let ghost key = self.key@;
        let ghost flags = self.flags;
        let ghost f = inner(key, flags);
        let ghost total = total_chunks as nat;
        let mut new_cv: ChainingValue = new_cv;
        let mut total_chunks: u64 = total_chunks;
        let ghost mut j: nat = 0;
        proof {
            vm0.lemma_appends_self();
            lemma2_to64();
            assert(total * 1 == total);
            assert forall|env: Valuation| #[trigger] vm0.allows(env) implies values(
                env,
                span(new_cv.0),
            ) == bits_of(tree(leaves(values(env, fed), key, flags, total).skip(total - 1), f)) by {
                let rest = leaves(values(env, fed), key, flags, total).skip(total - 1);
                assert(rest[0] == leaf(values(env, fed), key, flags, total - 1));
            }
        }
        // This chunk might complete some subtrees. For each completed subtree,
        // its left child will be the current top entry in the CV stack, and
        // its right child will be the current value of `new_cv`. Pop each left
        // child off the stack, merge it with `new_cv`, and overwrite `new_cv`
        // with the result. After all these merges, push the final value of
        // `new_cv` onto the stack. The number of completed subtrees is given
        // by the number of trailing 0-bits in the new total number of chunks.
        while total_chunks % 2 == 0
            invariant
                total_chunks >= 1,
                total == total_chunks * pow2(j),
                pow2(j) <= total,
                vm0 == *old(vm),
                vm.wf(),
                vm.appends(vm0),
                vm.openly(vm0),
                *old(self) == start,
                self.parts_wf(*vm),
                self.chunk == start.chunk,
                self.initial_cv == start.initial_cv,
                self.flags == start.flags,
                self.parent_state == start.parent_state,
                self.compress == start.compress,
                self.serialize == start.serialize,
                self.key == start.key,
                self.fed == start.fed,
                fed == self.fed@,
                key == self.key@,
                flags == self.flags,
                f == inner(key, flags),
                new_cv.0.size == 256,
                new_cv.0.end() <= vm.memory().len(),
                self.cv_stack@.len() <= MAX_SUBTREE_DEPTH,
                stack_holds(*vm, self.cv_stack@, fed, key, flags, (total - pow2(j)) as nat),
                forall|env: Valuation| #[trigger]
                    vm.allows(env) ==> values(env, span(new_cv.0)) == bits_of(
                        tree(
                            leaves(values(env, fed), key, flags, total).skip(
                                total - pow2(j),
                            ),
                            f,
                        ),
                    ),
            decreases total_chunks,
        {
            let ghost vm1 = *vm;
            let ghost before = self.cv_stack@;
            let ghost p = pow2(j);
            let ghost q = (total_chunks - 1) as nat;
            let ghost n1 = (total - p) as nat;
            proof {
                lemma_pow2_pos(j);
                assert(n1 == q * p) by (nonlinear_arith)
                    requires
                        total == total_chunks * p,
                        q == total_chunks - 1,
                        n1 == total - p,
                ;
                lemma_height_last(q, j);
            }
            let cv: ChainingValue = match self.cv_stack.pop() {
                Some(cv) => cv,
                None => new_cv,
            };
            assert(cv == before.last() && self.cv_stack@ =~= before.drop_last());
            assert(before.last() == before[before.len() - 1]);
            let merged: ChainingValue = match self.parent_cv(vm, cv, new_cv, false) {
                Ok(merged) => merged,
                Err(e) => {
                    proof {
                        vm.lemma_appends(vm1, vm0);
                    }
                    return Err(e);
                },
            };
            proof {
                vm.lemma_appends(vm1, vm0);
                self.lemma_parts_kept(*vm, vm1);
                lemma_pow2_unfold(j + 1);
                let top = (before.len() - 1) as int;
                assert forall|env: Valuation| #[trigger] vm.allows(env) implies values(
                    env,
                    span(merged.0),
                ) == bits_of(
                    tree(leaves(values(env, fed), key, flags, total).skip(total - 2 * p), f),
                ) by {
                    vm.lemma_allows(vm1, env);
                    let msg = values(env, fed);
                    let a = leaves(msg, key, flags, n1);
                    let all = leaves(msg, key, flags, total);
                    lemma_stack_last(a, q, j, f);
                    lemma_height(a, f);
                    assert(values(env, span(before[top].0)) == bits_of(stack_of(a, f)[top]));
                    let s = all.skip(total - 2 * p);
                    lemma_merge(s, j, f);
                    assert(s.take(p as int) =~= a.skip(n1 - p));
                    assert(s.skip(p as int) =~= all.skip(total - p));
                    lemma_words_of(tree(s.take(p as int), f));
                    lemma_words_of(tree(s.skip(p as int), f));
                }
                assert forall|env: Valuation, i: int|
                    0 <= i < self.cv_stack@.len() && vm.allows(env) implies #[trigger] values(
                    env,
                    span(self.cv_stack@[i].0),
                ) == bits_of(
                    stack_of(leaves(values(env, fed), key, flags, (n1 - p) as nat), f)[i],
                ) by {
                    vm.lemma_allows(vm1, env);
                    let msg = values(env, fed);
                    let a = leaves(msg, key, flags, n1);
                    lemma_stack_last(a, q, j, f);
                    lemma_height(a, f);
                    assert(a.take(n1 - p) =~= leaves(msg, key, flags, (n1 - p) as nat));
                    assert(self.cv_stack@[i] == before[i]);
                    assert(values(env, span(before[i].0)) == bits_of(stack_of(a, f)[i]));
                    lemma_height(a.take(n1 - p), f);
                }
                assert forall|i: int| 0 <= i < self.cv_stack@.len() implies (
                #[trigger] self.cv_stack@[i]).0.size == 256 && self.cv_stack@[i].0.end()
                    <= vm.memory().len() by {
                    assert(self.cv_stack@[i] == before[i]);
                }
                assert(stack_holds(
                    *vm,
                    self.cv_stack@,
                    fed,
                    key,
                    flags,
                    (total - 2 * p) as nat,
                ));
                assert(total == (total_chunks / 2) * pow2(j + 1)) by (nonlinear_arith)
                    requires
                        total == total_chunks * p,
                        total_chunks % 2 == 0,
                        pow2(j + 1) == 2 * p,
                ;
                assert(2 * p <= total) by (nonlinear_arith)
                    requires
                        total == total_chunks * p,
                        total_chunks >= 2,
                ;
                j = j + 1;
            }
            new_cv = merged;
            total_chunks = total_chunks / 2;
        }
        let ghost before = self.cv_stack@;
        proof {
            lemma_height_last(total_chunks as nat, j);
        }
        self.push_stack(new_cv)?;
        proof {
            let p = pow2(j);
            let q = total_chunks as nat;
            assert forall|env: Valuation, i: int|
                0 <= i < self.cv_stack@.len() && vm.allows(env) implies #[trigger] values(
                env,
                span(self.cv_stack@[i].0),
            ) == bits_of(stack_of(leaves(values(env, fed), key, flags, total), f)[i]) by {
                let all = leaves(values(env, fed), key, flags, total);
                lemma_stack_last(all, q, j, f);
                lemma_height(all.take(total - p), f);
                assert(all.take(total - p) =~= leaves(
                    values(env, fed),
                    key,
                    flags,
                    (total - p) as nat,
                ));
                if i < before.len() {
                    assert(self.cv_stack@[i] == before[i]);
                    assert(values(env, span(before[i].0)) == bits_of(
                        stack_of(all.take(total - p), f)[i],
                    ));
                }
            }
            assert forall|i: int| 0 <= i < self.cv_stack@.len() implies (
            #[trigger] self.cv_stack@[i]).0.size == 256 && self.cv_stack@[i].0.end()
                <= vm.memory().len() by {
                if i < before.len() {
                    assert(self.cv_stack@[i] == before[i]);
                }
            }
        }
        Ok(())
    }

    /// Compresses the current chunk, which is complete and not the root, and
    /// starts the next one.
    fn complete_chunk(&mut self, vm: &mut Vm) -> (r: Result<(), Blake3Error>)
        requires
            old(vm).wf(),
            old(self).state_wf(*old(vm)),
            old(self).chunk.data().len() == CHUNK_SIZE,
            old(self).chunk.counter < u64::MAX,
        ensures
            final(vm).wf(),
            final(vm).appends(*old(vm)),
            final(vm).openly(*old(vm)),
            final(self).key == old(self).key,
            final(self).flags == old(self).flags,
            final(self).fed == old(self).fed,
            r is Ok ==> {
                &&& final(self).state_wf(*final(vm))
                &&& final(self).chunk.counter == old(self).chunk.counter + 1
            },
            r is Err ==> match r->Err_0 {
                Blake3Error::Vm(e) => e == VmError::Memory && final(vm).exhausted(),
                Blake3Error::Tree => height((old(self).chunk.counter + 1) as nat)
                    > MAX_SUBTREE_DEPTH,
            },
    {
        let ghost vm1 = *vm;
        let ghost first = *self;
        let ghost counter = self.chunk.counter;
        let chunk_cv: ChainingValue = self.chunk.compress(vm, &self.compress, false)?;
        let ghost vm2 = *vm;
        let total_chunks: u64 = self.chunk.counter + 1;
        proof {
            first.lemma_parts_kept(vm2, vm1);
            lemma_stack_kept(
                vm2,
                vm1,
                self.cv_stack@,
                self.fed@,
                self.key@,
                self.flags,
                counter as nat,
            );
            assert forall|env: Valuation| #[trigger] vm2.allows(env) implies values(
                env,
                span(chunk_cv.0),
            ) == bits_of(leaf(values(env, self.fed@), self.key@, self.flags, counter as int)) by {
                vm2.lemma_allows(vm1, env);
                lemma_words_of(self.key@);
                assert(values(env, first.chunk.data()) =~= chunk_bits(
                    values(env, self.fed@),
                    counter as int,
                ));
            }
        }
        match self.add_chunk_chaining_value(vm, chunk_cv, total_chunks) {
            Ok(()) => {},
            Err(e) => {
                proof {
                    vm.lemma_appends(vm2, vm1);
                }
                return Err(e);
            },
        }
        let ghost vm3 = *vm;
        let ghost second = *self;
        proof {
            vm3.lemma_appends(vm2, vm1);
            second.lemma_parts_kept(vm3, vm2);
        }
        match Chunk::new(vm, self.initial_cv, self.flags, total_chunks) {
            Ok(chunk) => {
                self.chunk = chunk;
            },
            Err(e) => {
                proof {
                    vm.lemma_appends(vm3, vm1);
                }
                return Err(e);
            },
        }
        proof {
            vm.lemma_appends(vm3, vm1);
            second.lemma_parts_kept(*vm, vm3);
            lemma_stack_kept(
                *vm,
                vm3,
                self.cv_stack@,
                self.fed@,
                self.key@,
                self.flags,
                total_chunks as nat,
            );
            assert(self.chunk.data() =~= self.fed@.skip(8192 * total_chunks));
        }
        Ok(())
    }

    /// Adds data to the hash state. This can be called any number of times.
    pub fn update(&mut self, vm: &mut Vm, data: Slice) -> (r: Result<(), Blake3Error>)
        requires
            old(vm).wf(),
            old(self).wf(*old(vm)),
            data.end() <= old(vm).memory().len(),
            old(self).message().len() + data.size <= u64::MAX,
        ensures
            final(vm).wf(),
            final(vm).appends(*old(vm)),
            final(vm).openly(*old(vm)),
            final(self).key_words() == old(self).key_words(),
            final(self).base_flags() == old(self).base_flags(),
            r is Ok ==> {
                &&& final(self).wf(*final(vm))
                &&& final(self).message() == old(self).message() + span(data)
            },
            r is Err ==> match r->Err_0 {
                Blake3Error::Vm(e) => e == VmError::Memory && final(vm).exhausted(),
                Blake3Error::Tree => exists|n: nat| #[trigger]
                    height(n) > MAX_SUBTREE_DEPTH && 8192 * n < old(self).message().len()
                        + data.size,
            },
    {
        let ghost vm0 = *vm;
        let ghost start = *self;
        let mut rest: Slice = data;
        let len: usize = vm.len();
        proof {
            vm0.lemma_appends_self();
            assert(self.fed@ + span(rest) =~= start.fed@ + span(data));
        }
        while rest.len() > 0
            invariant
                len == vm0.memory().len(),
                vm0 == *old(vm),
                vm.wf(),
                vm.appends(vm0),
                vm.openly(vm0),
                *old(self) == start,
                self.wf(*vm),
                self.key == start.key,
                self.flags == start.flags,
                rest.end() <= vm0.memory().len(),
                self.fed@ + span(rest) == start.fed@ + span(data),
                start.fed@.len() + data.size <= u64::MAX,
            decreases rest.size,
        {
            // If the current chunk is complete, finalize it and reset the
            // chunk. More data is coming, so this chunk is not the root.
            //
            // This eagerly compresses each chunk so that the efficient
            // algorithm in `add_chunk_chaining_value` can be
            // used.
            assert(self.fed@.len() + rest.size == start.fed@.len() + data.size) by {
                assert((self.fed@ + span(rest)).len() == (start.fed@ + span(data)).len());
            }
            let ghost vm1 = *vm;
            let ghost first = *self;
            proof {
                vm1.lemma_appends_self();
            }
            if self.chunk.len() == CHUNK_SIZE {
                match self.complete_chunk(vm) {
                    Ok(()) => {},
                    Err(e) => {
                        proof {
                            vm.lemma_appends(vm1, vm0);
                            let n = (first.chunk.counter + 1) as nat;
                            assert(8192 * n < old(self).message().len() + data.size);
                            assert(e is Tree ==> height(n) > MAX_SUBTREE_DEPTH);
                        }
                        return Err(e);
                    },
                }
            }
            proof {
                vm.lemma_appends(vm1, vm0);
            }

            // Compresses data bytes into the current chunk.
            let ghost middle = *self;
            let diff: usize = CHUNK_SIZE - self.chunk.len();
            let take: usize = if diff < rest.len() {
                diff
            } else {
                rest.len()
            };
            let (left, right) = rest.split_at(take);
            self.chunk.update(left);
            self.fed = Ghost(self.fed@ + span(left));
            proof {
                let counter = self.chunk.counter;
                assert(span(rest) =~= span(left) + span(right));
                assert(self.fed@ + span(right) =~= middle.fed@ + span(rest));
                assert(self.chunk.data() =~= self.fed@.skip(8192 * counter));
                lemma_stack_fed(
                    *vm,
                    self.cv_stack@,
                    middle.fed@,
                    span(left),
                    self.key@,
                    self.flags,
                    counter as nat,
                );
            }
            rest = right;
        }
        assert(self.fed@ =~= start.fed@ + span(data));
        Ok(())
    }

    /// Computes the parents along the right edge of the tree, up to the root.
    fn root_cv(&self, vm: &mut Vm, chunk_cv: ChainingValue) -> (r: Result<
        ChainingValue,
        Blake3Error,
    >)
        requires
            old(vm).wf(),
            self.parts_wf(*old(vm)),
            self.cv_stack@.len() > 0,
            self.chunk.counter > 0,
            8192 * self.chunk.counter < self.fed@.len() <= 8192 * (self.chunk.counter + 1),
            stack_holds(
                *old(vm),
                self.cv_stack@,
                self.fed@,
                self.key@,
                self.flags,
                self.chunk.counter as nat,
            ),
            chunk_cv.0.size == 256,
            chunk_cv.0.end() <= old(vm).memory().len(),
            forall|env: Valuation| #[trigger]
                old(vm).allows(env) ==> values(env, span(chunk_cv.0)) == bits_of(
                    leaf(
                        values(env, self.fed@),
                        self.key@,
                        self.flags,
                        self.chunk.counter as int,
                    ),
                ),
        ensures
            final(vm).wf(),
            final(vm).appends(*old(vm)),
            final(vm).openly(*old(vm)),
            r is Ok ==> {
                &&& r->Ok_0.0.size == 256
                &&& r->Ok_0.0.end() <= final(vm).memory().len()
                &&& forall|env: Valuation| #[trigger]
                    final(vm).allows(env) ==> values(env, span(r->Ok_0.0)) == bits_of(
                        digest(values(env, self.fed@), self.key@, self.flags),
                    )
            },
            r is Err ==> r->Err_0 == Blake3Error::Vm(VmError::Memory) && final(vm).exhausted(),
    {
        let ghost vm0 = *vm;
        let ghost fed = self.fed@;
        let ghost key = self.key@;
        let ghost flags = self.flags;
        let ghost n = self.chunk.counter as nat;
        let ghost stack = self.cv_stack@;
        let mut parent_nodes_remaining: usize = self.cv_stack.len();
        let mut output: ChainingValue = chunk_cv;
        proof {
            vm0.lemma_appends_self();
            assert forall|env: Valuation| #[trigger] vm0.allows(env) implies values(
                env,
                span(output.0),
            ) == bits_of(edge(values(env, fed), key, flags, n, stack.len() as int)) by {
                lemma_edge_end(values(env, fed), key, flags, n);
            }
        }
        while parent_nodes_remaining > 1
            invariant
                1 <= parent_nodes_remaining <= stack.len(),
                vm0 == *old(vm),
                vm.wf(),
                vm.appends(vm0),
                vm.openly(vm0),
                self.parts_wf(*vm),
                self.cv_stack@ == stack,
                self.flags == flags,
                self.key@ == key,
                output.0.size == 256,
                output.0.end() <= vm.memory().len(),
                stack_holds(*vm, stack, fed, key, flags, n),
                forall|env: Valuation| #[trigger]
                    vm.allows(env) ==> values(env, span(output.0)) == bits_of(
                        edge(values(env, fed), key, flags, n, parent_nodes_remaining as int),
                    ),
            decreases parent_nodes_remaining,
        {
            let ghost vm1 = *vm;
            parent_nodes_remaining = parent_nodes_remaining - 1;
            let left: ChainingValue = self.cv_stack[parent_nodes_remaining];
            assert(left == stack[parent_nodes_remaining as int]);
            let next: ChainingValue = match self.parent_cv(vm, left, output, false) {
                Ok(next) => next,
                Err(e) => {
                    proof {
                        vm.lemma_appends(vm1, vm0);
                    }
                    return Err(e);
                },
            };
            proof {
                let k = parent_nodes_remaining as int;
                vm.lemma_appends(vm1, vm0);
                self.lemma_parts_kept(*vm, vm1);
                lemma_stack_kept(*vm, vm1, stack, fed, key, flags, n);
                assert forall|env: Valuation| #[trigger] vm.allows(env) implies values(
                    env,
                    span(next.0),
                ) == bits_of(edge(values(env, fed), key, flags, n, k)) by {
                    vm.lemma_allows(vm1, env);
                    let msg = values(env, fed);
                    assert(values(env, span(stack[k].0)) == bits_of(
                        stack_of(leaves(msg, key, flags, n), inner(key, flags))[k],
                    ));
                    lemma_edge(msg, key, flags, n, k);
                }
            }
            output = next;
        }
        // Computes the chaining value of the root.
        let ghost vm1 = *vm;
        let left: ChainingValue = self.cv_stack[0];
        assert(left == stack[0]);
        let r: Result<ChainingValue, Blake3Error> = self.parent_cv(vm, left, output, true);
        proof {
            vm.lemma_appends(vm1, vm0);
            if r is Ok {
                assert forall|env: Valuation| #[trigger] vm.allows(env) implies values(
                    env,
                    span(r->Ok_0.0),
                ) == bits_of(digest(values(env, fed), key, flags)) by {
                    vm.lemma_allows(vm1, env);
                    let msg = values(env, fed);
                    assert(values(env, span(stack[0].0)) == bits_of(
                        stack_of(leaves(msg, key, flags, n), inner(key, flags))[0],
                    ));
                    lemma_root(msg, key, flags, n);
                }
            }
        }
        r
    }

    /// Finalizes the hash. Nothing of the current chunk is left to be compressed
    /// afterwards.
    pub fn finalize(&mut self, vm: &mut Vm) -> (r: Result<Slice, Blake3Error>)
        requires
            old(vm).wf(),
            old(self).wf(*old(vm)),
        ensures
            final(vm).wf(),
            final(vm).appends(*old(vm)),
            final(vm).openly(*old(vm)),
            final(self).message() == old(self).message(),
            final(self).key_words() == old(self).key_words(),
            final(self).base_flags() == old(self).base_flags(),
            r is Ok ==> {
                &&& r->Ok_0.size == 256
                &&& r->Ok_0.end() <= final(vm).memory().len()
                &&& forall|env: Valuation| #[trigger]
                    final(vm).allows(env) ==> values(env, span(r->Ok_0)) == bits_of(
                        digest(
                            values(env, old(self).message()),
                            old(self).key_words(),
                            old(self).base_flags(),
                        ),
                    )
            },
            r is Err ==> r->Err_0 == Blake3Error::Vm(VmError::Memory) && final(vm).exhausted(),
    {
        let ghost vm0 = *vm;
        let ghost start = *self;
        let ghost fed = self.fed@;
        let ghost key = self.key@;
        let ghost flags = self.flags;
        let ghost n = self.chunk.counter as nat;
        let ghost stack = self.cv_stack@;
        proof {
            lemma_height_positive(n);
        }
        // Starting with the current chunk, compute all the parent chaining
        // values along the right edge of the tree, until we have the
        // root.
        let output: ChainingValue = if self.cv_stack.len() == 0 {
            // When there is only 1 chunk to be hashed, i.e. self.chunk is the
            // root.
            let output: ChainingValue = self.chunk.compress(vm, &self.compress, true)?;
            proof {
                assert forall|env: Valuation| #[trigger] vm.allows(env) implies values(
                    env,
                    span(output.0),
                ) == bits_of(digest(values(env, fed), key, flags)) by {
                    vm.lemma_allows(vm0, env);
                    lemma_words_of(key);
                    assert(fed.skip(0) =~= fed);
                }
            }
            output
        } else {
            let chunk_cv: ChainingValue = self.chunk.compress(vm, &self.compress, false)?;
            let ghost vm1 = *vm;
            proof {
                start.lemma_parts_kept(vm1, vm0);
                lemma_stack_kept(vm1, vm0, stack, fed, key, flags, n);
                assert forall|env: Valuation| #[trigger] vm1.allows(env) implies values(
                    env,
                    span(chunk_cv.0),
                ) == bits_of(leaf(values(env, fed), key, flags, n as int)) by {
                    vm1.lemma_allows(vm0, env);
                    lemma_words_of(key);
                    assert(values(env, start.chunk.data()) =~= chunk_bits(
                        values(env, fed),
                        n as int,
                    ));
                }
            }
            match self.root_cv(vm, chunk_cv) {
                Ok(output) => {
                    proof {
                        vm.lemma_appends(vm1, vm0);
                    }
                    output
                },
                Err(e) => {
                    proof {
                        vm.lemma_appends(vm1, vm0);
                    }
                    return Err(e);
                },
            }
        };
        let ghost vm2 = *vm;
        let mut inputs: Vec<Slice> = Vec::new();
        inputs.push(output.0);
        let ghost given = inputs@;
        proof {
            assert(given =~= Seq::<Slice>::empty().push(output.0));
            lemma_push(Seq::empty(), output.0);
            assert(addresses(given) =~= span(output.0));
        }
        let out: Slice = match vm.call(&self.serialize, inputs) {
            Ok(out) => out,
            Err(e) => {
                proof {
                    vm.lemma_same(vm2);
                    vm.lemma_appends(vm2, vm0);
                }
                return Err(Blake3Error::Vm(e));
            },
        };
        proof {
            vm.lemma_appends(vm2, vm0);
            assert forall|env: Valuation| #[trigger] vm.allows(env) implies values(env, span(out))
                == bits_of(digest(values(env, fed), key, flags)) by {
                vm.lemma_allows(vm2, env);
                assert(laid_out(false, values(env, span(output.0))) =~= values(
                    env,
                    span(output.0),
                ));
            }
        }
        Ok(out)
    }
}

/// The stack holds the same roots where data is added.
proof fn lemma_stack_fed(
    vm: Vm,
    stack: Seq<ChainingValue>,
    fed: Seq<int>,
    more: Seq<int>,
    key: Seq<u32>,
    flags: u32,
    n: nat,
)
    requires
        stack_holds(vm, stack, fed, key, flags, n),
        8192 * n <= fed.len(),
    ensures
        stack_holds(vm, stack, fed + more, key, flags, n),
{
    let f = inner(key, flags);
    assert forall|env: Valuation, j: int|
        0 <= j < stack.len() && vm.allows(env) implies #[trigger] values(env, span(stack[j].0))
        == bits_of(stack_of(leaves(values(env, fed + more), key, flags, n), f)[j]) by {
        let was = values(env, fed);
        let now = values(env, fed + more);
        lemma_values_add(env, fed, more);
        let a = leaves(was, key, flags, n);
        let b = leaves(now, key, flags, n);
        assert forall|i: int| 0 <= i < n implies a[i] == b[i] by {
            lemma_leaf_kept(was, values(env, more), i);
        }
        assert(a =~= b);
    }
}

/// There is a complete tree where there is a leaf.
proof fn lemma_height_positive(n: nat)
    ensures
        height(n) == 0 <==> n == 0,
{
    if n > 0 {
        let s = Seq::new(n, |i: int| i);
        let g = |a: int, b: int| a;
        lemma_stack_first(s, g);
        lemma_height(s, g);
    }
}

/// The chaining value on the right edge of the tree over the first `n` chunks
/// and the last one, above which there are the first `k` complete trees.
spec fn edge(msg: Seq<bool>, key: Seq<u32>, flags: u32, n: nat, k: int) -> Seq<u32> {
    let f = inner(key, flags);
    fold(
        stack_of(leaves(msg, key, flags, n), f).skip(k),
        leaf(msg, key, flags, n as int),
        f,
    )
}

proof fn lemma_edge_end(msg: Seq<bool>, key: Seq<u32>, flags: u32, n: nat)
    ensures
        edge(msg, key, flags, n, height(n) as int) == leaf(msg, key, flags, n as int),
{
    let f = inner(key, flags);
    let a = leaves(msg, key, flags, n);
    lemma_height(a, f);
    assert(stack_of(a, f).skip(height(n) as int) =~= Seq::empty());
}

proof fn lemma_edge(msg: Seq<bool>, key: Seq<u32>, flags: u32, n: nat, k: int)
    requires
        0 <= k < height(n),
    ensures
        edge(msg, key, flags, n, k) == parent(
            words_of(bits_of(stack_of(leaves(msg, key, flags, n), inner(key, flags))[k])),
            words_of(bits_of(edge(msg, key, flags, n, k + 1))),
            key,
            flags,
            false,
        ),
{
    let f = inner(key, flags);
    let a = leaves(msg, key, flags, n);
    let roots = stack_of(a, f);
    lemma_height(a, f);
    lemma_words_of(roots[k]);
    lemma_words_of(edge(msg, key, flags, n, k + 1));
    assert(roots.skip(k).skip(1) =~= roots.skip(k + 1));
    assert(roots.skip(k)[0] == roots[k]);
}

proof fn lemma_root(msg: Seq<bool>, key: Seq<u32>, flags: u32, n: nat)
    requires
        n > 0,
        8192 * n < msg.len() <= 8192 * (n + 1),
    ensures
        digest(msg, key, flags) == parent(
            words_of(bits_of(stack_of(leaves(msg, key, flags, n), inner(key, flags))[0])),
            words_of(bits_of(edge(msg, key, flags, n, 1))),
            key,
            flags,
            true,
        ),
{
    let f = inner(key, flags);
    let a = leaves(msg, key, flags, n);
    let last = leaf(msg, key, flags, n as int);
    let all = leaves(msg, key, flags, n + 1);
    lemma_stack_first(a, f);
    let l = split(n + 1) as int;
    lemma_fold(a.skip(l), last, f);
    assert(all.take(l) =~= a.take(l));
    assert(all.skip(l) =~= a.skip(l).push(last));
    let roots = stack_of(a, f);
    lemma_words_of(roots[0]);
    lemma_words_of(edge(msg, key, flags, n, 1));
    assert(chunk_count(msg.len()) == n + 1);
}

} // verus!
