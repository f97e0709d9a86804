//! Folding a sequence with an operation of which only the possible outcomes of
//! each step are known.

use vstd::prelude::*;

verus! {

/// `trace` holds the partial results of taking up `items` one after another,
/// starting from `init`: each comes from the one before by a `step`.
pub open spec fn partials<A, B>(step: spec_fn(A, B, A) -> bool, init: A, items: Seq<B>, trace: Seq<A>) -> bool {
    &&& trace.len() == items.len() + 1
    &&& trace[0] == init
    &&& forall|i: int| #![trigger items[i]] 0 <= i < items.len() ==> step(trace[i], items[i], trace[i + 1])
}

/// `r` is what taking up `items`, first to last, starting from `init`, may
/// come to.
pub open spec fn folded<A, B>(step: spec_fn(A, B, A) -> bool, init: A, items: Seq<B>, r: A) -> bool {
    exists|trace: Seq<A>| #[trigger] partials(step, init, items, trace) && trace.last() == r
}

/// With nothing to take up, the start is the result.
pub proof fn lemma_folded_empty<A, B>(step: spec_fn(A, B, A) -> bool, init: A)
    ensures
        folded(step, init, Seq::<B>::empty(), init),
{
    assert(partials(step, init, Seq::<B>::empty(), seq![init]));
}

/// One more item is taken up.
pub proof fn lemma_folded_push<A, B>(step: spec_fn(A, B, A) -> bool, init: A, items: Seq<B>, mid: A, item: B, r: A)
    requires
        folded(step, init, items, mid),
        step(mid, item, r),
    ensures
        folded(step, init, items.push(item), r),
{
    let trace = choose|trace: Seq<A>| #[trigger] partials(step, init, items, trace) && trace.last() == mid;
    let longer = trace.push(r);
    let more = items.push(item);
    assert forall|i: int| #![trigger more[i]] 0 <= i < more.len() implies step(longer[i], more[i], longer[i + 1]) by {
        if i < items.len() {
            assert(more[i] == items[i]);
        }
    }
    assert(partials(step, init, more, longer));
}

/// Where each step has one outcome, so has the fold.
pub proof fn lemma_folded_same<A, B>(step: spec_fn(A, B, A) -> bool, init: A, items: Seq<B>, r: A, s: A)
    requires
        forall|a: A, b: B, u: A, v: A| #[trigger] step(a, b, u) && #[trigger] step(a, b, v) ==> u == v,
        folded(step, init, items, r),
        folded(step, init, items, s),
    ensures
        r == s,
{
    let one = choose|trace: Seq<A>| #[trigger] partials(step, init, items, trace) && trace.last() == r;
    let two = choose|trace: Seq<A>| #[trigger] partials(step, init, items, trace) && trace.last() == s;
    lemma_partials_same(step, init, items, one, two, items.len());
}

proof fn lemma_partials_same<A, B>(
    step: spec_fn(A, B, A) -> bool,
    init: A,
    items: Seq<B>,
    one: Seq<A>,
    two: Seq<A>,
    n: nat,
)
    requires
        forall|a: A, b: B, u: A, v: A| #[trigger] step(a, b, u) && #[trigger] step(a, b, v) ==> u == v,
        partials(step, init, items, one),
        partials(step, init, items, two),
        n <= items.len(),
    ensures
        one[n as int] == two[n as int],
    decreases n,
{
    if n > 0 {
        lemma_partials_same(step, init, items, one, two, (n - 1) as nat);
        let item = items[n - 1];
        assert(step(one[n - 1], item, one[n as int]));
        assert(step(two[n - 1], item, two[n as int]));
    }
}

/// Takes up all of `items` with `f`, first to last.
pub(crate) fn fold_all<A: Copy, B: Copy, F: Fn(A, B) -> A>(
    f: &F,
    init: A,
    items: &Vec<B>,
    Ghost(step): Ghost<spec_fn(A, B, A) -> bool>,
) -> (r: A)
    requires
        forall|a: A, b: B| #[trigger] f.requires((a, b)),
        forall|a: A, b: B, r: A| #[trigger] f.ensures((a, b), r) ==> step(a, b, r),
    ensures
        folded(step, init, items@, r),
{
    let mut acc = init;
    proof {
        lemma_folded_empty::<A, B>(step, init);
        assert(items@.take(0) =~= Seq::empty());
    }
    let mut i: usize = 0;
    while i < items.len()
        invariant
            i <= items.len(),
            forall|a: A, b: B| #[trigger] f.requires((a, b)),
            forall|a: A, b: B, r: A| #[trigger] f.ensures((a, b), r) ==> step(a, b, r),
            folded(step, init, items@.take(i as int), acc),
        decreases items.len() - i,
    {
        let item = items[i];
        let next = f(acc, item);
        proof {
            lemma_folded_push(step, init, items@.take(i as int), acc, item, next);
            assert(items@.take(i as int).push(item) =~= items@.take(i + 1));
        }
        acc = next;
        i = i + 1;
    }
    proof {
        assert(items@.take(i as int) =~= items@);
    }
    acc
}

} // verus!
