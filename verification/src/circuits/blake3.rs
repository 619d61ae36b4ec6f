//! Blake3 compression circuit.
use super::builder::CircuitBuilder;
use super::circuit::{Circuit, Node};
use super::numbering::{lemma_build_preserves, proper_outputs};
use super::ops::{
    add32, bit32, grown, has_word, lemma_pack, lemma_word, lemma_word_ext, lemma_word_kept, pack,
    plain, rotate_right, rotr, word, wrapping_add, xor, Word,
};
use vstd::prelude::*;

verus! {

/// The wires of a Blake3 state.
pub type State = [Word; 16];

/// The wires of a Blake3 message block.
pub type Msg = [Word; 16];

/// Permutation schedule used in Blake3 hashing.
pub open spec fn msg_permutation() -> Seq<int> {
    seq![2, 6, 3, 10, 7, 0, 4, 13, 1, 11, 12, 5, 9, 14, 15, 8]
}

/// The integers on the wires of a state.
pub open spec fn words(b: &CircuitBuilder, inputs: Seq<bool>, s: State) -> Seq<u32> {
    Seq::new(16, |i: int| word(b, inputs, s[i]))
}

/// The state's wires belong to the builder.
pub open spec fn has_state(b: &CircuitBuilder, s: State) -> bool {
    forall|i: int| 0 <= i < 16 ==> has_word(b, #[trigger] s[i])
}

/// None of the state's wires is a constant.
pub open spec fn plain_state(s: State) -> bool {
    forall|i: int| 0 <= i < 16 ==> plain(#[trigger] s[i])
}

/// The Blake3 mixing function on words.
pub open spec fn mix_words(
    s: Seq<u32>,
    at: (int, int, int, int),
    x: u32,
    y: u32,
) -> Seq<u32> {
    let (a, b, c, d) = at;
    let va = add32(add32(s[a], s[b]), x);
    let vd = rotr(s[d] ^ va, 16);
    let vc = add32(s[c], vd);
    let vb = rotr(s[b] ^ vc, 12);
    let va = add32(add32(va, vb), y);
    let vd = rotr(vd ^ va, 8);
    let vc = add32(vc, vd);
    let vb = rotr(vb ^ vc, 7);
    s.update(a, va).update(b, vb).update(c, vc).update(d, vd)
}

/// The Blake3 round function on words.
pub open spec fn round_words(s: Seq<u32>, m: Seq<u32>) -> Seq<u32> {
    let s = mix_words(s, (0, 4, 8, 12), m[0], m[1]);
    let s = mix_words(s, (1, 5, 9, 13), m[2], m[3]);
    let s = mix_words(s, (2, 6, 10, 14), m[4], m[5]);
    let s = mix_words(s, (3, 7, 11, 15), m[6], m[7]);
    let s = mix_words(s, (0, 5, 10, 15), m[8], m[9]);
    let s = mix_words(s, (1, 6, 11, 12), m[10], m[11]);
    let s = mix_words(s, (2, 7, 8, 13), m[12], m[13]);
    mix_words(s, (3, 4, 9, 14), m[14], m[15])
}

/// The message block permuted once.
pub open spec fn permute_words(m: Seq<u32>) -> Seq<u32> {
    Seq::new(16, |i: int| m[msg_permutation()[i]])
}

/// The state and the message block before round `n`.
pub open spec fn before_round(s: Seq<u32>, m: Seq<u32>, n: nat) -> (Seq<u32>, Seq<u32>)
    decreases n,
{
    if n == 0 {
        (s, m)
    } else {
        let (t, k) = before_round(s, m, (n - 1) as nat);
        (round_words(t, k), permute_words(k))
    }
}

/// The Blake3 compression function: seven rounds, then the halves of the state
/// are folded together and with the initial state.
pub open spec fn compress_words(m: Seq<u32>, s: Seq<u32>) -> Seq<u32> {
    let t = before_round(s, m, 7).0;
    Seq::new(16, |i: int| if i < 8 { t[i] ^ t[i + 8] } else { t[i] ^ s[i - 8] })
}

/// Added gates leave a state as it was.
proof fn lemma_state_kept(next: &CircuitBuilder, prior: &CircuitBuilder, s: State)
    requires
        next.extends(prior),
        has_state(prior, s),
    ensures
        has_state(next, s),
        forall|inputs: Seq<bool>| #[trigger] words(next, inputs, s) == words(prior, inputs, s),
{
    assert forall|i: int| 0 <= i < 16 implies has_word(next, #[trigger] s[i]) by {
        lemma_word_kept(next, prior, Seq::empty(), s[i]);
    }
    assert forall|inputs: Seq<bool>| #[trigger]
        words(next, inputs, s) == words(prior, inputs, s) by {
        assert forall|i: int| 0 <= i < 16 implies word(next, inputs, #[trigger] s[i]) == word(
            prior,
            inputs,
            s[i],
        ) by {
            lemma_word_kept(next, prior, inputs, s[i]);
        }
        assert(words(next, inputs, s) =~= words(prior, inputs, s));
    }
}

/// Added gates leave a word as it was.
proof fn lemma_kept(next: &CircuitBuilder, prior: &CircuitBuilder, w: Word)
    requires
        next.extends(prior),
        has_word(prior, w),
    ensures
        has_word(next, w),
        forall|inputs: Seq<bool>| #[trigger] word(next, inputs, w) == word(prior, inputs, w),
{
    lemma_word_kept(next, prior, Seq::empty(), w);
    assert forall|inputs: Seq<bool>| #[trigger]
        word(next, inputs, w) == word(prior, inputs, w) by {
        lemma_word_kept(next, prior, inputs, w);
    }
}

/// One half of the mixing function: `a += b + m; d = (d ^ a) >>> p;
/// c += d; b = (b ^ c) >>> q`.
fn half_mix(
    builder: &mut CircuitBuilder,
    words4: (Word, Word, Word, Word),
    m: &Word,
    rotations: (usize, usize),
) -> (r: (Word, Word, Word, Word))
    requires
        old(builder).wf(),
        has_word(old(builder), words4.0),
        has_word(old(builder), words4.1),
        has_word(old(builder), words4.2),
        has_word(old(builder), words4.3),
        has_word(old(builder), *m),
        0 < rotations.0 < 32,
        0 < rotations.1 < 32,
        old(builder).feed_id + 544 <= usize::MAX,
    ensures
        grown(final(builder), old(builder), 544),
        has_word(final(builder), r.0),
        has_word(final(builder), r.1),
        has_word(final(builder), r.2),
        has_word(final(builder), r.3),
        forall|inputs: Seq<bool>|
            #![trigger word(final(builder), inputs, r.0)]
            #![trigger word(final(builder), inputs, r.1)]
            #![trigger word(final(builder), inputs, r.2)]
            #![trigger word(final(builder), inputs, r.3)]
            {
                let a = word(old(builder), inputs, words4.0);
                let b = word(old(builder), inputs, words4.1);
                let c = word(old(builder), inputs, words4.2);
                let d = word(old(builder), inputs, words4.3);
                let x = word(old(builder), inputs, *m);
                let va = add32(add32(a, b), x);
                let vd = rotr(d ^ va, rotations.0 as u32);
                let vc = add32(c, vd);
                let vb = rotr(b ^ vc, rotations.1 as u32);
                &&& word(final(builder), inputs, r.0) == va
                &&& word(final(builder), inputs, r.1) == vb
                &&& word(final(builder), inputs, r.2) == vc
                &&& word(final(builder), inputs, r.3) == vd
            },
        plain(words4.0) && plain(words4.1) && plain(words4.2) && plain(words4.3) && plain(*m)
            ==> plain(r.0) && plain(r.1) && plain(r.2) && plain(r.3),
{
    let (a, b, c, d) = words4;
    let (p, q) = rotations;
    let ghost b0 = *builder;
    let s: Word = wrapping_add(builder, &a, &b);
    let ghost b1 = *builder;
    proof {
        lemma_kept(&b1, &b0, *m);
        lemma_kept(&b1, &b0, b);
        lemma_kept(&b1, &b0, c);
        lemma_kept(&b1, &b0, d);
    }
    let a1: Word = wrapping_add(builder, &s, m);
    let ghost b2 = *builder;
    proof {
        lemma_kept(&b2, &b1, b);
        lemma_kept(&b2, &b1, c);
        lemma_kept(&b2, &b1, d);
    }
    let t: Word = xor(builder, d, a1);
    let ghost b3 = *builder;
    let d1: Word = rotate_right(t, p);
    proof {
        lemma_kept(&b3, &b2, b);
        lemma_kept(&b3, &b2, c);
        lemma_kept(&b3, &b2, a1);
        assert(has_word(&b3, t));
        assert(has_word(&b3, d1));
    }
    let c1: Word = wrapping_add(builder, &c, &d1);
    let ghost b4 = *builder;
    proof {
        lemma_kept(&b4, &b3, b);
        lemma_kept(&b4, &b3, a1);
        lemma_kept(&b4, &b3, d1);
    }
    let u: Word = xor(builder, b, c1);
    let b_1: Word = rotate_right(u, q);
    proof {
        if plain(a) && plain(b) && plain(c) && plain(d) && plain(*m) {
            assert(plain(t) && plain(d1));
            assert(plain(u) && plain(b_1));
        }
        lemma_kept(builder, &b4, a1);
        lemma_kept(builder, &b4, d1);
        lemma_kept(builder, &b4, c1);
        assert(has_word(builder, u));
        assert(has_word(builder, b_1));
        assert forall|inputs: Seq<bool>|
            #![trigger word(builder, inputs, a1)]
            #![trigger word(builder, inputs, b_1)]
            #![trigger word(builder, inputs, c1)]
            #![trigger word(builder, inputs, d1)]
            {
                let va = add32(
                    add32(word(&b0, inputs, a), word(&b0, inputs, b)),
                    word(&b0, inputs, *m),
                );
                let vd = rotr(word(&b0, inputs, d) ^ va, p as u32);
                let vc = add32(word(&b0, inputs, c), vd);
                let vb = rotr(word(&b0, inputs, b) ^ vc, q as u32);
                &&& word(builder, inputs, a1) == va
                &&& word(builder, inputs, b_1) == vb
                &&& word(builder, inputs, c1) == vc
                &&& word(builder, inputs, d1) == vd
            } by {
            assert(word(&b2, inputs, a1) == add32(word(&b1, inputs, s), word(&b1, inputs, *m)));
            assert(word(&b3, inputs, a1) == word(&b2, inputs, a1));
            assert(word(&b4, inputs, a1) == word(&b3, inputs, a1));
            assert(word(builder, inputs, a1) == word(&b4, inputs, a1));
            assert(word(&b3, inputs, t) == word(&b2, inputs, d) ^ word(&b2, inputs, a1));
            assert(word(&b3, inputs, d1) == rotr(word(&b3, inputs, t), p as u32));
            assert(word(&b4, inputs, d1) == word(&b3, inputs, d1));
            assert(word(builder, inputs, d1) == word(&b4, inputs, d1));
            assert(word(&b4, inputs, c1) == add32(word(&b3, inputs, c), word(&b3, inputs, d1)));
            assert(word(builder, inputs, c1) == word(&b4, inputs, c1));
            assert(word(builder, inputs, u) == word(&b4, inputs, b) ^ word(&b4, inputs, c1));
            assert(word(builder, inputs, b_1) == rotr(word(builder, inputs, u), q as u32));
        }
    }
    (a1, b_1, c1, d1)
}

/// Mix function used in Blake3 hashing.
pub fn mix(
    builder: &mut CircuitBuilder,
    state: &mut State,
    msg: &Msg,
    state_indices: (usize, usize, usize, usize),
    msg_indices: (usize, usize),
)
    requires
        old(builder).wf(),
        has_state(old(builder), *old(state)),
        has_state(old(builder), *msg),
        old(builder).feed_id + 1088 <= usize::MAX,
        state_indices.0 < 16,
        state_indices.1 < 16,
        state_indices.2 < 16,
        state_indices.3 < 16,
        msg_indices.0 < 16,
        msg_indices.1 < 16,
        state_indices.0 != state_indices.1 && state_indices.0 != state_indices.2,
        state_indices.0 != state_indices.3 && state_indices.1 != state_indices.2,
        state_indices.1 != state_indices.3 && state_indices.2 != state_indices.3,
    ensures
        grown(final(builder), old(builder), 1088),
        has_state(final(builder), *final(state)),
        has_state(final(builder), *msg),
        forall|inputs: Seq<bool>| #[trigger]
            words(final(builder), inputs, *msg) == words(old(builder), inputs, *msg),
        forall|inputs: Seq<bool>| #[trigger]
            words(final(builder), inputs, *final(state)) == mix_words(
                words(old(builder), inputs, *old(state)),
                (
                    state_indices.0 as int,
                    state_indices.1 as int,
                    state_indices.2 as int,
                    state_indices.3 as int,
                ),
                words(old(builder), inputs, *msg)[msg_indices.0 as int],
                words(old(builder), inputs, *msg)[msg_indices.1 as int],
            ),
        forall|i: int|
            0 <= i < 16 && i != state_indices.0 && i != state_indices.1 && i != state_indices.2
                && i != state_indices.3 ==> #[trigger] final(state)[i] == old(state)[i],
        plain_state(*old(state)) && plain_state(*msg) ==> plain_state(*final(state)),
{
    let (a, b, c, d) = state_indices;
    let (mx, my) = msg_indices;
    let ghost b0 = *builder;
    let ghost s0 = *state;
    assert(has_word(&b0, s0[a as int]) && has_word(&b0, s0[b as int]));
    assert(has_word(&b0, s0[c as int]) && has_word(&b0, s0[d as int]));
    assert(has_word(&b0, msg[mx as int]) && has_word(&b0, msg[my as int]));
    let h: (Word, Word, Word, Word) = half_mix(
        builder,
        (state[a], state[b], state[c], state[d]),
        &msg[mx],
        (16, 12),
    );
    let ghost b1 = *builder;
    proof {
        lemma_state_kept(&b1, &b0, s0);
        lemma_state_kept(&b1, &b0, *msg);
        lemma_kept(&b1, &b0, msg[my as int]);
    }
    let r: (Word, Word, Word, Word) = half_mix(builder, h, &msg[my], (8, 7));
    let ghost b2 = *builder;
    proof {
        lemma_state_kept(&b2, &b1, s0);
        lemma_state_kept(&b2, &b1, *msg);
    }
    state[a] = r.0;
    state[b] = r.1;
    state[c] = r.2;
    state[d] = r.3;
    proof {
        let s1 = *state;
        if plain_state(s0) && plain_state(*msg) {
            assert(plain(s0[a as int]) && plain(s0[b as int]));
            assert(plain(s0[c as int]) && plain(s0[d as int]));
            assert(plain(msg[mx as int]) && plain(msg[my as int]));
            assert forall|i: int| 0 <= i < 16 implies plain(#[trigger] s1[i]) by {
                assert(plain(s0[i]));
            }
        }
        assert forall|i: int| 0 <= i < 16 implies has_word(&b2, #[trigger] s1[i]) by {
            assert(has_word(&b2, s0[i]));
        }
        assert forall|inputs: Seq<bool>| #[trigger]
            words(&b2, inputs, s1) == mix_words(
                words(&b0, inputs, s0),
                (a as int, b as int, c as int, d as int),
                words(&b0, inputs, *msg)[mx as int],
                words(&b0, inputs, *msg)[my as int],
            ) by {
            let out = mix_words(
                words(&b0, inputs, s0),
                (a as int, b as int, c as int, d as int),
                words(&b0, inputs, *msg)[mx as int],
                words(&b0, inputs, *msg)[my as int],
            );
            assert(words(&b2, inputs, s0) == words(&b1, inputs, s0));
            assert(words(&b1, inputs, s0) == words(&b0, inputs, s0));
            assert(word(&b1, inputs, msg[my as int]) == word(&b0, inputs, msg[my as int]));
            assert(word(&b1, inputs, h.0) == word(&b1, inputs, h.0));
            assert(word(&b2, inputs, r.0) == word(&b2, inputs, r.0));
            assert forall|i: int| 0 <= i < 16 implies #[trigger] words(&b2, inputs, s1)[i]
                == out[i] by {
                if i != a && i != b && i != c && i != d {
                    assert(s1[i] == s0[i]);
                    assert(words(&b2, inputs, s0)[i] == words(&b0, inputs, s0)[i]);
                }
            }
            assert(words(&b2, inputs, s1) =~= out);
        }
    }
}

/// Round function used in Blake3 hashing.
pub fn round(builder: &mut CircuitBuilder, state: &mut State, msg: &Msg)
    requires
        old(builder).wf(),
        has_state(old(builder), *old(state)),
        has_state(old(builder), *msg),
        old(builder).feed_id + 8704 <= usize::MAX,
    ensures
        grown(final(builder), old(builder), 8704),
        has_state(final(builder), *final(state)),
        has_state(final(builder), *msg),
        forall|inputs: Seq<bool>| #[trigger]
            words(final(builder), inputs, *msg) == words(old(builder), inputs, *msg),
        forall|inputs: Seq<bool>| #[trigger]
            words(final(builder), inputs, *final(state)) == round_words(
                words(old(builder), inputs, *old(state)),
                words(old(builder), inputs, *msg),
            ),
        plain_state(*old(state)) && plain_state(*msg) ==> plain_state(*final(state)),
{
    // Mix columns.
    mix(builder, state, msg, (0, 4, 8, 12), (0, 1));
    mix(builder, state, msg, (1, 5, 9, 13), (2, 3));
    mix(builder, state, msg, (2, 6, 10, 14), (4, 5));
    mix(builder, state, msg, (3, 7, 11, 15), (6, 7));

    // Mix diagonals.
    mix(builder, state, msg, (0, 5, 10, 15), (8, 9));
    mix(builder, state, msg, (1, 6, 11, 12), (10, 11));
    mix(builder, state, msg, (2, 7, 8, 13), (12, 13));
    mix(builder, state, msg, (3, 4, 9, 14), (14, 15));
}

/// Permute function used in Blake3 hashing.
pub fn permute(msg: Msg) -> (out: Msg)
    ensures
        out@ == Seq::new(16, |i: int| msg[msg_permutation()[i]]),
        plain_state(msg) ==> plain_state(out),
        forall|b: CircuitBuilder| #[trigger] has_state(&b, msg) ==> has_state(&b, out),
        forall|b: CircuitBuilder, inputs: Seq<bool>| #[trigger]
            words(&b, inputs, out) == permute_words(words(&b, inputs, msg)),
{
    let schedule: [usize; 16] = [2, 6, 3, 10, 7, 0, 4, 13, 1, 11, 12, 5, 9, 14, 15, 8];
    let mut out: Msg = msg;
    let mut i: usize = 0;
    assert forall|j: int| 0 <= j < 16 implies #[trigger] schedule[j] == msg_permutation()[j]
        && schedule[j] < 16 by {
        assert(schedule@ =~= seq![
            2usize, 6, 3, 10, 7, 0, 4, 13, 1, 11, 12, 5, 9, 14, 15, 8,
        ]);
    }
    while i < 16
        invariant
            i <= 16,
            forall|j: int|
                0 <= j < 16 ==> #[trigger] schedule[j] == msg_permutation()[j] && schedule[j] < 16,
            forall|j: int| 0 <= j < i ==> #[trigger] out[j] == msg[msg_permutation()[j]],
        decreases 16 - i,
    {
        out[i] = msg[schedule[i]];
        i = i + 1;
    }
    proof {
        assert forall|j: int| 0 <= j < 16 implies 0 <= #[trigger] msg_permutation()[j] < 16 by {
            assert(schedule[j] < 16);
        }
        if plain_state(msg) {
            assert forall|j: int| 0 <= j < 16 implies plain(#[trigger] out[j]) by {
                assert(plain(msg[msg_permutation()[j]]));
            }
        }
        assert forall|b: CircuitBuilder| #[trigger] has_state(&b, msg) implies has_state(
            &b,
            out,
        ) by {
            assert forall|j: int| 0 <= j < 16 implies has_word(&b, #[trigger] out[j]) by {
                assert(has_word(&b, msg[msg_permutation()[j]]));
            }
        }
        assert forall|b: CircuitBuilder, inputs: Seq<bool>| #[trigger]
            words(&b, inputs, out) == permute_words(words(&b, inputs, msg)) by {
            assert(words(&b, inputs, out) =~= permute_words(words(&b, inputs, msg)));
        }
    }
    out
}

/// The number of output wire `j` of word `i` behind the first of the last 512
/// gates.
pub open spec fn output_offset(i: int, j: int) -> int {
    if i < 8 {
        64 * i + j
    } else {
        64 * (i - 8) + 32 + j
    }
}

/// Compress function used in Blake3 hashing.
pub fn compress_internal(builder: &mut CircuitBuilder, msg: Msg, state: State) -> (out: State)
    requires
        old(builder).wf(),
        has_state(old(builder), state),
        has_state(old(builder), msg),
        old(builder).feed_id + 61440 <= usize::MAX,
    ensures
        grown(final(builder), old(builder), 61440),
        has_state(final(builder), out),
        forall|inputs: Seq<bool>| #[trigger]
            words(final(builder), inputs, out) == compress_words(
                words(old(builder), inputs, msg),
                words(old(builder), inputs, state),
            ),
        plain_state(state) && plain_state(msg) ==> {
            &&& plain_state(out)
            &&& final(builder).feed_id >= old(builder).feed_id + 512
            &&& forall|i: int, j: int|
                0 <= i < 16 && 0 <= j < 32 ==> (#[trigger] out[i][j]).id == final(builder).feed_id
                    - 512 + output_offset(i, j)
        },
{
    let mut msg: Msg = msg;
    let mut running_state: State = state;
    let ghost m0 = msg;
    let ghost clean = plain_state(state) && plain_state(msg);
    let mut n: usize = 0;
    while n < 6
        invariant
            n <= 6,
            old(builder).wf(),
            old(builder).feed_id + 61440 <= usize::MAX,
            grown(builder, old(builder), (8704 * n) as nat),
            has_state(old(builder), state),
            has_state(builder, running_state),
            has_state(builder, msg),
            clean ==> plain_state(running_state) && plain_state(msg),
            forall|inputs: Seq<bool>|
                #![trigger words(builder, inputs, running_state)]
                #![trigger words(builder, inputs, msg)]
                (words(builder, inputs, running_state), words(builder, inputs, msg))
                    == before_round(
                    words(old(builder), inputs, state),
                    words(old(builder), inputs, m0),
                    n as nat,
                ),
        decreases 6 - n,
    {
        let ghost (p, rs) = (*builder, running_state);
        let ghost pm = msg;
        round(builder, &mut running_state, &msg);
        msg = permute(msg);
        n = n + 1;
        proof {
            assert(has_state(builder, pm));
            assert forall|inputs: Seq<bool>|
                #![trigger words(builder, inputs, running_state)]
                #![trigger words(builder, inputs, msg)]
                (words(builder, inputs, running_state), words(builder, inputs, msg))
                    == before_round(
                    words(old(builder), inputs, state),
                    words(old(builder), inputs, m0),
                    n as nat,
                ) by {
                assert((words(&p, inputs, rs), words(&p, inputs, pm)) == before_round(
                    words(old(builder), inputs, state),
                    words(old(builder), inputs, m0),
                    (n - 1) as nat,
                ));
                assert(words(builder, inputs, pm) == words(&p, inputs, pm));
                assert(words(builder, inputs, msg) == permute_words(words(builder, inputs, pm)));
            }
        }
    }
    let ghost (p, rs) = (*builder, running_state);
    round(builder, &mut running_state, &msg);
    let ghost b7 = *builder;
    let ghost t = running_state;
    proof {
        lemma_state_kept(&b7, old(builder), state);
        assert forall|inputs: Seq<bool>| #[trigger]
            words(&b7, inputs, t) == before_round(
                words(old(builder), inputs, state),
                words(old(builder), inputs, m0),
                7,
            ).0 by {
            assert((words(&p, inputs, rs), words(&p, inputs, msg)) == before_round(
                words(old(builder), inputs, state),
                words(old(builder), inputs, m0),
                6,
            ));
        }
    }
    let mut i: usize = 0;
    while i < 8
        invariant
            i <= 8,
            old(builder).wf(),
            old(builder).feed_id + 61440 <= usize::MAX,
            b7.wf(),
            grown(&b7, old(builder), 60928),
            grown(builder, &b7, (64 * i) as nat),
            has_state(&b7, t),
            has_state(&b7, state),
            clean ==> plain_state(state) && plain_state(t),
            clean ==> plain_state(running_state),
            has_state(builder, running_state),
            forall|k: int| i <= k < 8 ==> #[trigger] running_state[k] == t[k],
            forall|k: int| 8 + i <= k < 16 ==> #[trigger] running_state[k] == t[k],
            clean ==> builder.feed_id == b7.feed_id + 64 * i,
            clean ==> forall|k: int, j: int|
                0 <= k < 16 && (k < i || 8 <= k < 8 + i) && 0 <= j < 32 ==> (
                #[trigger] running_state[k][j]).id == b7.feed_id + output_offset(k, j),
            forall|k: int, inputs: Seq<bool>|
                0 <= k < i ==> #[trigger] word(builder, inputs, running_state[k]) == word(
                    &b7,
                    inputs,
                    t[k],
                ) ^ word(&b7, inputs, t[k + 8]),
            forall|k: int, inputs: Seq<bool>|
                8 <= k < 8 + i ==> #[trigger] word(builder, inputs, running_state[k]) == word(
                    &b7,
                    inputs,
                    t[k],
                ) ^ word(&b7, inputs, state[k - 8]),
        decreases 8 - i,
    {
        let ghost c0 = *builder;
        let ghost r0 = running_state;
        let ghost k0 = i as int;
        assert(has_word(&c0, running_state[k0]));
        assert(has_word(&c0, running_state[k0 + 8]));
        assert(has_word(&b7, t[k0]) && has_word(&b7, t[k0 + 8]) && has_word(&b7, state[k0]));
        proof {
            lemma_kept(&c0, &b7, t[k0]);
            lemma_kept(&c0, &b7, t[k0 + 8]);
            lemma_kept(&c0, &b7, state[k0]);
            if clean {
                assert(plain(t[k0]) && plain(t[k0 + 8]) && plain(state[k0]));
            }
        }
        let lo: Word = xor(builder, running_state[i], running_state[i + 8]);
        let ghost c1 = *builder;
        proof {
            lemma_kept(&c1, &c0, t[k0 + 8]);
            lemma_kept(&c1, &c0, state[k0]);
            lemma_state_kept(&c1, &c0, r0);
        }
        let hi: Word = xor(builder, running_state[i + 8], state[i]);
        proof {
            lemma_kept(builder, &c1, lo);
            lemma_state_kept(builder, &c1, r0);
        }
        running_state[i] = lo;
        running_state[i + 8] = hi;
        i = i + 1;
        proof {
            assert forall|k: int| 0 <= k < 16 implies has_word(
                builder,
                #[trigger] running_state[k],
            ) by {
                assert(has_word(builder, r0[k]));
            }
            assert forall|k: int, inputs: Seq<bool>| 0 <= k < i implies #[trigger] word(
                builder,
                inputs,
                running_state[k],
            ) == word(&b7, inputs, t[k]) ^ word(&b7, inputs, t[k + 8]) by {
                if k < k0 {
                    assert(running_state[k] == r0[k]);
                    assert(word(&c0, inputs, r0[k]) == word(&b7, inputs, t[k]) ^ word(
                        &b7,
                        inputs,
                        t[k + 8],
                    ));
                    assert(words(builder, inputs, r0)[k] == words(&c1, inputs, r0)[k]);
                    assert(words(&c1, inputs, r0)[k] == words(&c0, inputs, r0)[k]);
                } else {
                    assert(word(builder, inputs, lo) == word(&c1, inputs, lo));
                }
            }
            assert forall|k: int, inputs: Seq<bool>| 8 <= k < 8 + i implies #[trigger] word(
                builder,
                inputs,
                running_state[k],
            ) == word(&b7, inputs, t[k]) ^ word(&b7, inputs, state[k - 8]) by {
                if k < 8 + k0 {
                    assert(running_state[k] == r0[k]);
                    assert(word(&c0, inputs, r0[k]) == word(&b7, inputs, t[k]) ^ word(
                        &b7,
                        inputs,
                        state[k - 8],
                    ));
                    assert(words(builder, inputs, r0)[k] == words(&c1, inputs, r0)[k]);
                    assert(words(&c1, inputs, r0)[k] == words(&c0, inputs, r0)[k]);
                } else {
                    assert(word(builder, inputs, hi) == word(&c1, inputs, t[k]) ^ word(
                        &c1,
                        inputs,
                        state[k - 8],
                    ));
                    assert(word(&c1, inputs, t[k]) == word(&c0, inputs, t[k]));
                    assert(word(&c1, inputs, state[k - 8]) == word(&c0, inputs, state[k - 8]));
                }
            }
            if clean {
                assert forall|k: int| 0 <= k < 16 implies plain(#[trigger] running_state[k]) by {
                    assert(plain(r0[k]));
                }
                assert forall|k: int, j: int|
                    0 <= k < 16 && (k < i || 8 <= k < 8 + i) && 0 <= j < 32 implies (
                #[trigger] running_state[k][j]).id == b7.feed_id + output_offset(k, j) by {
                    if k != k0 && k != 8 + k0 {
                        assert(running_state[k] == r0[k]);
                        assert(r0[k][j].id == b7.feed_id + output_offset(k, j));
                    }
                }
            }
        }
    }
    proof {
        assert forall|inputs: Seq<bool>| #[trigger]
            words(builder, inputs, running_state) == compress_words(
                words(old(builder), inputs, m0),
                words(old(builder), inputs, state),
            ) by {
            let s = words(old(builder), inputs, state);
            assert(words(&b7, inputs, state) == s);
            let e = compress_words(words(old(builder), inputs, m0), s);
            let r = words(&b7, inputs, t);
            assert forall|k: int| 0 <= k < 16 implies #[trigger] words(
                builder,
                inputs,
                running_state,
            )[k] == e[k] by {
                assert(word(builder, inputs, running_state[k]) == word(
                    builder,
                    inputs,
                    running_state[k],
                ));
                assert(r[k] == word(&b7, inputs, t[k]));
                if k < 8 {
                    assert(r[k + 8] == word(&b7, inputs, t[k + 8]));
                } else {
                    assert(s[k - 8] == words(&b7, inputs, state)[k - 8]);
                }
            }
            assert(words(builder, inputs, running_state) =~= e);
        }
    }
    running_state
}

/// The word at position `j` of a sequence of bits.
pub open spec fn word_at(bits: Seq<bool>, j: int) -> u32 {
    pack(|k: int| bits[32 * j + k], 32)
}

/// The 16 words from position `j` on of a sequence of bits.
pub open spec fn words_at(bits: Seq<bool>, j: int) -> Seq<u32> {
    Seq::new(16, |i: int| word_at(bits, j + i))
}

/// The bits of 16 words, least significant bit first.
pub open spec fn bits_of_words(w: Seq<u32>) -> Seq<bool> {
    Seq::new(512, |j: int| bit32(w[j / 32], j % 32))
}

/// Adds the inputs of one word.
fn add_word(builder: &mut CircuitBuilder) -> (w: Word)
    requires
        old(builder).wf(),
        old(builder).feed_id + 32 <= usize::MAX,
        old(builder).gates@.len() == 0,
    ensures
        final(builder).extends(old(builder)),
        final(builder).gates@.len() == 0,
        final(builder).feed_id == old(builder).feed_id + 32,
        final(builder).inputs@.len() == old(builder).inputs@.len() + 32,
        has_word(final(builder), w),
        plain(w),
        forall|j: int, inputs: Seq<bool>|
            0 <= j < 32 ==> #[trigger] final(builder).value(inputs, w[j])
                == inputs[old(builder).inputs@.len() + j],
{
    let mut w: Word = [builder.get_const_zero();32];
    let mut j: usize = 0;
    while j < 32
        invariant
            j <= 32,
            old(builder).wf(),
            old(builder).feed_id + 32 <= usize::MAX,
            builder.extends(old(builder)),
            builder.gates@.len() == 0,
            builder.feed_id == old(builder).feed_id + j,
            builder.inputs@.len() == old(builder).inputs@.len() + j,
            forall|k: int| 0 <= k < j ==> 2 <= (#[trigger] w[k]).id < builder.feed_id,
            forall|k: int, inputs: Seq<bool>|
                0 <= k < j ==> #[trigger] builder.value(inputs, w[k])
                    == inputs[old(builder).inputs@.len() + k],
        decreases 32 - j,
    {
        let ghost prior = *builder;
        let node: Node = builder.add_input();
        w[j] = node;
        j = j + 1;
        proof {
            assert forall|k: int, inputs: Seq<bool>| 0 <= k < j implies #[trigger] builder.value(
                inputs,
                w[k],
            ) == inputs[old(builder).inputs@.len() + k] by {
                if k < j - 1 {
                    assert(prior.has(w[k]));
                    assert(prior.value(inputs, w[k]) == inputs[old(builder).inputs@.len() + k]);
                }
            }
        }
    }
    w
}

/// Adds the inputs of 16 words.
fn add_words(builder: &mut CircuitBuilder) -> (s: State)
    requires
        old(builder).wf(),
        old(builder).feed_id + 512 <= usize::MAX,
        old(builder).gates@.len() == 0,
        old(builder).inputs@.len() % 32 == 0,
    ensures
        final(builder).extends(old(builder)),
        final(builder).gates@.len() == 0,
        final(builder).feed_id == old(builder).feed_id + 512,
        final(builder).inputs@.len() == old(builder).inputs@.len() + 512,
        has_state(final(builder), s),
        plain_state(s),
        forall|inputs: Seq<bool>| #[trigger]
            words(final(builder), inputs, s) == words_at(
                inputs,
                old(builder).inputs@.len() as int / 32,
            ),
{
    let ghost base = old(builder).inputs@.len() as int / 32;
    let mut s: State = [[builder.get_const_zero();32];16];
    let mut i: usize = 0;
    while i < 16
        invariant
            i <= 16,
            old(builder).wf(),
            old(builder).feed_id + 512 <= usize::MAX,
            32 * base == old(builder).inputs@.len(),
            builder.extends(old(builder)),
            builder.gates@.len() == 0,
            builder.feed_id == old(builder).feed_id + 32 * i,
            builder.inputs@.len() == old(builder).inputs@.len() + 32 * i,
            forall|k: int| 0 <= k < i ==> has_word(builder, #[trigger] s[k]),
            forall|k: int| 0 <= k < i ==> plain(#[trigger] s[k]),
            forall|k: int, inputs: Seq<bool>|
                0 <= k < i ==> #[trigger] word(builder, inputs, s[k]) == word_at(inputs, base + k),
        decreases 16 - i,
    {
        let ghost prior = *builder;
        let ghost s0 = s;
        let w: Word = add_word(builder);
        s[i] = w;
        proof {
            let n = prior.inputs@.len() as int;
            assert forall|k: int| 0 <= k <= i implies has_word(builder, #[trigger] s[k]) by {
                if k < i {
                    assert(has_word(&prior, s0[k]));
                    lemma_kept(builder, &prior, s0[k]);
                }
            }
            assert forall|k: int, inputs: Seq<bool>| 0 <= k <= i implies #[trigger] word(
                builder,
                inputs,
                s[k],
            ) == word_at(inputs, base + k) by {
                if k < i {
                    assert(has_word(&prior, s0[k]));
                    lemma_kept(builder, &prior, s0[k]);
                    assert(word(&prior, inputs, s0[k]) == word_at(inputs, base + k));
                } else {
                    lemma_word(builder, inputs, w);
                    lemma_pack(|l: int| inputs[32 * (base + k) + l], 32);
                    assert forall|l: int| 0 <= l < 32 implies #[trigger] bit32(
                        word(builder, inputs, w),
                        l,
                    ) == bit32(word_at(inputs, base + k), l) by {
                        assert(builder.value(inputs, w[l]) == inputs[n + l]);
                    }
                    lemma_word_ext(word(builder, inputs, w), word_at(inputs, base + k));
                }
            }
        }
        i = i + 1;
    }
    proof {
        assert forall|inputs: Seq<bool>| #[trigger]
            words(builder, inputs, s) == words_at(inputs, base) by {
            assert(words(builder, inputs, s) =~= words_at(inputs, base));
        }
    }
    s
}

/// Returns a Blake3 compression circuit with the following signature:
///
/// `fn(msg: [u32; 16], state: [u32; 16]) -> [u32; 16]`
pub fn compress() -> (circ: Circuit)
    ensures
        circ.wf(),
        circ.input_count == 1024,
        circ.output_count == 512,
        forall|inputs: Seq<bool>| #[trigger]
            circ.eval(inputs) == bits_of_words(
                compress_words(words_at(inputs, 0), words_at(inputs, 16)),
            ),
{
    let mut builder: CircuitBuilder = CircuitBuilder::new();

    let msg: Msg = add_words(&mut builder);
    let ghost b1 = builder;
    let state: State = add_words(&mut builder);
    let ghost b2 = builder;
    proof {
        lemma_state_kept(&b2, &b1, msg);
    }

    let output: State = compress_internal(&mut builder, msg, state);
    let ghost b3 = builder;

    let mut i: usize = 0;
    while i < 16
        invariant
            i <= 16,
            builder.outputs@.len() == 32 * i,
            builder == (CircuitBuilder { outputs: builder.outputs, ..b3 }),
            builder.wf(),
            forall|inputs: Seq<bool>, node: Node| #[trigger]
                builder.value(inputs, node) == b3.value(inputs, node),
            forall|k: int|
                0 <= k < 32 * i ==> #[trigger] builder.outputs@[k] == output[k / 32][k % 32],
        decreases 16 - i,
    {
        let mut j: usize = 0;
        while j < 32
            invariant
                i < 16,
                j <= 32,
                builder.outputs@.len() == 32 * i + j,
                builder == (CircuitBuilder { outputs: builder.outputs, ..b3 }),
                builder.wf(),
                forall|inputs: Seq<bool>, node: Node| #[trigger]
                    builder.value(inputs, node) == b3.value(inputs, node),
                forall|k: int|
                    0 <= k < 32 * i + j ==> #[trigger] builder.outputs@[k] == output[k / 32][k
                        % 32],
            decreases 32 - j,
        {
            builder.add_output(output[i][j]);
            j = j + 1;
        }
        i = i + 1;
    }
    proof {
        let b = builder;
        let first = b3.feed_id - 512;
        assert(b3.inputs@.len() == 1024 && b2.feed_id == 1026);
        assert(first >= 1026);
        assert forall|k: int| 0 <= k < 512 implies (#[trigger] b.outputs@[k]).id == first
            + output_offset(k / 32, k % 32) by {
            assert(output[k / 32][k % 32].id == first + output_offset(k / 32, k % 32));
        }
        assert forall|x: int, y: int| 0 <= x < y < b.outputs.len() implies (
        #[trigger] b.outputs@[x]).id != (#[trigger] b.outputs@[y]).id by {
            lemma_offsets(x, y);
        }
        assert forall|k: int| 0 <= k < b.outputs.len() implies !b.is_input(
            (#[trigger] b.outputs@[k]).id,
        ) by {
            if b.is_input(b.outputs@[k].id) {
                let l = choose|l: int|
                    0 <= l < b.inputs.len() && (#[trigger] b.inputs@[l]).id == b.outputs@[k].id;
                assert(b2.inputs[l].id < b2.feed_id);
            }
        }
        assert(proper_outputs(b));
    }
    let ghost b = builder;
    let circ: Circuit = match builder.build() {
        Ok(circ) => circ,
        Err(_) => {
            // `build` does not fail.
            Circuit {
                input_count: 0,
                output_count: 0,
                gates: Vec::new(),
                feed_count: 0,
                and_count: 0,
                xor_count: 0,
            }
        },
    };
    proof {
        lemma_build_preserves(b, circ, Seq::empty());
        assert forall|inputs: Seq<bool>| #[trigger]
            circ.eval(inputs) == bits_of_words(
                compress_words(words_at(inputs, 0), words_at(inputs, 16)),
            ) by {
            lemma_build_preserves(b, circ, inputs);
            let w = compress_words(words_at(inputs, 0), words_at(inputs, 16));
            assert(words(&b1, inputs, msg) == words_at(inputs, 0));
            assert(words(&b2, inputs, msg) == words(&b1, inputs, msg));
            assert(words(&b2, inputs, state) == words_at(inputs, 16));
            assert(words(&b3, inputs, output) == w);
            assert forall|k: int| 0 <= k < 512 implies b.value(inputs, #[trigger] b.outputs@[k])
                == bit32(w[k / 32], k % 32) by {
                assert(b.value(inputs, b.outputs@[k]) == b3.value(inputs, b.outputs@[k]));
                lemma_word(&b3, inputs, output[k / 32]);
                assert(words(&b3, inputs, output)[k / 32] == word(&b3, inputs, output[k / 32]));
                assert(bit32(word(&b3, inputs, output[k / 32]), k % 32) == b3.value(
                    inputs,
                    output[k / 32][k % 32],
                ));
            }
            assert(circ.eval(inputs) =~= bits_of_words(w));
        }
    }
    circ
}

proof fn lemma_offsets(x: int, y: int)
    requires
        0 <= x < y < 512,
    ensures
        output_offset(x / 32, x % 32) != output_offset(y / 32, y % 32),
{
}

} // verus!
