//! The gradient tape: an append-only record of traced operations, replayed
//! once, newest first, to drive the backward pass.
use vstd::prelude::*;

verus! {

/// Operations recorded in the order they ran forward.
pub struct Tape<E> {
    entries: Vec<E>,
}

impl<E> View for Tape<E> {
    type V = Seq<E>;

    closed spec fn view(&self) -> Seq<E> {
        self.entries@
    }
}

/// `states` traces a replay of `entries` newest first: it starts at the seed
/// and each next state is what one call `step(state, entry)` returned, for
/// the entries from the last recorded to the first.
pub open spec fn replay_trace<G, E, F: Fn(G, &E) -> G>(step: F, entries: Seq<E>, states: Seq<G>) -> bool {
    &&& states.len() == entries.len() + 1
    &&& forall|k: int|
        0 <= k < entries.len() ==> call_ensures(
            step,
            (states[k], &entries[entries.len() - 1 - k]),
            #[trigger] states[k + 1],
        )
}

impl<E> Tape<E> {
    /// An empty tape.
    pub fn new() -> (r: Tape<E>)
        ensures
            r@ == Seq::<E>::empty(),
    {
        Tape { entries: Vec::new() }
    }

    /// Number of recorded operations.
    pub fn len(&self) -> (r: usize)
        ensures
            r == self@.len(),
    {
        self.entries.len()
    }

    /// Records an operation where one of its inputs is traced; one on
    /// untraced inputs only leaves the tape as it was.
    pub fn record(&mut self, traced: bool, entry: E)
        ensures
            traced ==> final(self)@ == old(self)@.push(entry),
            !traced ==> final(self)@ == old(self)@,
    {
        if traced {
            self.entries.push(entry);
        }
    }

    /// Plays the tape back once, newest entry first, threading the gradient
    /// state from `seed` through `step`; the tape is consumed.
    pub fn replay<G, F: Fn(G, &E) -> G>(self, seed: G, step: F) -> (r: G)
        requires
            forall|g: G, e: &E| call_requires(step, (g, e)),
        ensures
            exists|states: Seq<G>|
                #[trigger] replay_trace(step, self@, states) && states[0] == seed && states.last() == r,
    {
        let n = self.entries.len();
        let mut g = seed;
        let ghost mut states: Seq<G> = seq![seed];
        let mut k: usize = 0;
        while k < n
            invariant
                n == self.entries@.len(),
                forall|g: G, e: &E| call_requires(step, (g, e)),
                0 <= k <= n,
                states.len() == k + 1,
                states[0] == seed,
                states.last() == g,
                forall|j: int|
                    0 <= j < k ==> call_ensures(
                        step,
                        (states[j], &self.entries@[n - 1 - j]),
                        #[trigger] states[j + 1],
                    ),
            decreases n - k,
        {
            let ghost prev = states;
            let ghost before = g;
            g = step(g, &self.entries[n - 1 - k]);
            proof {
                states = states.push(g);
                assert forall|j: int| 0 <= j < k + 1 implies call_ensures(
                    step,
                    (states[j], &self.entries@[n - 1 - j]),
                    #[trigger] states[j + 1],
                ) by {
                    if j < k {
                        assert(states[j] == prev[j]);
                        assert(states[j + 1] == prev[j + 1]);
                    }
                }
            }
            k = k + 1;
        }
        assert(replay_trace(step, self@, states));
        g
    }
}

} // verus!
