//! Requests that wait for correlated oblivious transfers.
use crate::ot::ferret::mpcot::start_of;
use std::collections::VecDeque;
use vstd::prelude::*;

verus! {

/// The number of requests that can be served, in the order in which they were
/// queued, before one asks for more than is left.
pub open spec fn served(queue: Seq<usize>, available: nat) -> nat
    decreases queue.len(),
{
    if queue.len() == 0 || queue[0] > available {
        0
    } else {
        1 + served(queue.skip(1), (available - queue[0]) as nat)
    }
}

/// What request number `i` is served: requests take from the back.
pub open spec fn portion<T>(stock: Seq<T>, queue: Seq<usize>, i: nat) -> Seq<T> {
    stock.subrange(
        stock.len() - start_of(queue, i + 1) as int,
        stock.len() - start_of(queue, i) as int,
    )
}

/// What is left after the first `n` requests.
pub open spec fn remainder<T>(stock: Seq<T>, queue: Seq<usize>, n: nat) -> Seq<T> {
    stock.take(stock.len() - start_of(queue, n) as int)
}

/// What the requests that are served ask for is available, and the next one asks
/// for more than is left.
pub proof fn lemma_served(queue: Seq<usize>, available: nat)
    ensures
        served(queue, available) <= queue.len(),
        start_of(queue, served(queue, available)) <= available,
        served(queue, available) < queue.len() ==> start_of(queue, served(queue, available) + 1)
            > available,
        forall|i: nat|
            i <= served(queue, available) ==> #[trigger] start_of(queue, i) <= start_of(
                queue,
                served(queue, available),
            ),
    decreases queue.len(),
{
    let n = served(queue, available);
    if n > 0 {
        let rest = queue.skip(1);
        lemma_served(rest, (available - queue[0]) as nat);
        lemma_shift(queue, (n - 1) as nat);
        if n < queue.len() {
            lemma_shift(queue, n);
        }
    } else if queue.len() > 0 {
        assert(start_of(queue, 1) == start_of(queue, 0) + queue[0]);
    }
    assert forall|i: nat| i <= n implies #[trigger] start_of(queue, i) <= start_of(queue, n) by {
        lemma_mono(queue, i, n);
    }
}

proof fn lemma_mono(queue: Seq<usize>, i: nat, j: nat)
    requires
        i <= j <= queue.len(),
    ensures
        start_of(queue, i) <= start_of(queue, j),
    decreases j,
{
    if i < j {
        lemma_mono(queue, i, (j - 1) as nat);
    }
}

proof fn lemma_shift(queue: Seq<usize>, n: nat)
    requires
        queue.len() > 0,
        n < queue.len(),
    ensures
        start_of(queue, n + 1) == queue[0] + start_of(queue.skip(1), n),
    decreases n,
{
    if n > 0 {
        lemma_shift(queue, (n - 1) as nat);
    } else {
        assert(start_of(queue, 1) == start_of(queue, 0) + queue[0]);
    }
}

proof fn lemma_step(queue: Seq<usize>, available: nat, i: nat)
    requires
        i < queue.len(),
        start_of(queue, i) <= available,
        served(queue, available) == i + served(
            queue.skip(i as int),
            (available - start_of(queue, i)) as nat,
        ),
    ensures
        queue[i as int] <= available - start_of(queue, i) ==> {
            &&& start_of(queue, i + 1) <= available
            &&& served(queue, available) == i + 1 + served(
                queue.skip(i as int + 1),
                (available - start_of(queue, i + 1)) as nat,
            )
        },
        queue[i as int] > available - start_of(queue, i) ==> served(queue, available) == i,
{
    assert(queue.skip(i as int).skip(1) =~= queue.skip(i as int + 1));
}

/// Takes the requests that can be served out of the queue.
pub fn serve(queue: &mut VecDeque<usize>, available: usize) -> (r: Vec<usize>)
    ensures
        r@ == old(queue)@.take(served(old(queue)@, available as nat) as int),
        final(queue)@ == old(queue)@.skip(served(old(queue)@, available as nat) as int),
{
    let ghost all = queue@;
    let mut left: usize = available;
    let mut out: Vec<usize> = Vec::new();
    let ghost mut n: nat = 0;
    assert(all.skip(0) =~= all);
    while queue.len() > 0
        invariant_except_break
            served(all, available as nat) == n + served(all.skip(n as int), left as nat),
        invariant
            n <= all.len(),
            queue@ == all.skip(n as int),
            out@ == all.take(n as int),
            start_of(all, n) + left == available,
        ensures
            served(all, available as nat) == n,
        decreases queue@.len(),
    {
        proof {
            lemma_step(all, available as nat, n);
        }
        let count: usize = queue[0];
        assert(count == all[n as int]);
        if left < count {
            break;
        }
        queue.pop_front();
        out.push(count);
        left = left - count;
        proof {
            n = n + 1;
            assert(queue@ =~= all.skip(n as int));
            assert(out@ =~= all.take(n as int));
        }
    }
    out
}

/// Request `n` gets as many as it asks for, off the end of what the requests
/// before it have left; what is then left is all that goes on, so that nothing is
/// handed out twice and nothing gets lost.
pub proof fn lemma_portions<T>(stock: Seq<T>, queue: Seq<usize>, n: nat)
    requires
        n < queue.len(),
        start_of(queue, n + 1) <= stock.len(),
    ensures
        remainder(stock, queue, 0) == stock,
        portion(stock, queue, n).len() == queue[n as int],
        remainder(stock, queue, n) == remainder(stock, queue, n + 1) + portion(stock, queue, n),
{
    assert(start_of(queue, n + 1) == start_of(queue, n) + queue[n as int]);
    assert(remainder(stock, queue, 0) =~= stock);
    assert(remainder(stock, queue, n) =~= remainder(stock, queue, n + 1) + portion(
        stock,
        queue,
        n,
    ));
}

/// As many requests are served as possible without passing one over: exactly
/// those up to which the requests together ask for no more than is available.
pub proof fn lemma_served_most(queue: Seq<usize>, available: nat, n: nat)
    requires
        n <= queue.len(),
    ensures
        n <= served(queue, available) <==> start_of(queue, n) <= available,
{
    lemma_served(queue, available);
    let m = served(queue, available);
    if n > m {
        lemma_mono(queue, m + 1, n);
    }
}

} // verus!
