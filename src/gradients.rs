//! The gradient map: one accumulator per parameter id. Contributions to the
//! same parameter are combined element by element into its accumulator,
//! never written over it.
use vstd::prelude::*;

verus! {

/// The map that the first `n` entries `(ids[k], vals[k])` make.
pub open spec fn map_of<T>(ids: Seq<u64>, vals: Seq<Seq<T>>, n: int) -> Map<u64, Seq<T>>
    decreases n,
{
    if n <= 0 {
        Map::empty()
    } else {
        map_of(ids, vals, n - 1).insert(ids[n - 1], vals[n - 1])
    }
}

proof fn lemma_map_of_entries<T>(ids: Seq<u64>, vals: Seq<Seq<T>>, n: int)
    requires
        0 <= n <= ids.len(),
        vals.len() == ids.len(),
        ids.no_duplicates(),
    ensures
        forall|k: int|
            0 <= k < n ==> #[trigger] map_of(ids, vals, n).contains_key(ids[k]) && map_of(ids, vals, n)[ids[k]]
                == vals[k],
        forall|id: u64|
            #[trigger] map_of(ids, vals, n).contains_key(id) ==> exists|k: int| 0 <= k < n && ids[k] == id,
    decreases n,
{
    if n > 0 {
        lemma_map_of_entries(ids, vals, n - 1);
        assert forall|k: int| 0 <= k < n implies #[trigger] map_of(ids, vals, n).contains_key(ids[k])
            && map_of(ids, vals, n)[ids[k]] == vals[k] by {
            if k < n - 1 {
                assert(ids[k] != ids[n - 1]);
                assert(map_of(ids, vals, n - 1).contains_key(ids[k]));
            }
        }
        assert forall|id: u64| #[trigger] map_of(ids, vals, n).contains_key(id) implies exists|k: int|
            0 <= k < n && ids[k] == id by {
            if id != ids[n - 1] {
                assert(map_of(ids, vals, n - 1).contains_key(id));
            }
        }
    }
}

proof fn lemma_map_of_prefix<T>(ids: Seq<u64>, a: Seq<Seq<T>>, b: Seq<Seq<T>>, n: int)
    requires
        0 <= n,
        forall|k: int| 0 <= k < n ==> a[k] == b[k],
    ensures
        map_of(ids, a, n) == map_of(ids, b, n),
    decreases n,
{
    if n > 0 {
        lemma_map_of_prefix(ids, a, b, n - 1);
    }
}

proof fn lemma_map_of_update<T>(ids: Seq<u64>, vals: Seq<Seq<T>>, n: int, k: int, v: Seq<T>)
    requires
        0 <= k < n <= ids.len(),
        vals.len() == ids.len(),
        ids.no_duplicates(),
    ensures
        map_of(ids, vals.update(k, v), n) == map_of(ids, vals, n).insert(ids[k], v),
    decreases n,
{
    let upd = vals.update(k, v);
    if k == n - 1 {
        lemma_map_of_prefix(ids, upd, vals, n - 1);
        assert(map_of(ids, upd, n) =~= map_of(ids, vals, n).insert(ids[k], v));
    } else {
        lemma_map_of_update(ids, vals, n - 1, k, v);
        assert(ids[k] != ids[n - 1]);
        assert(map_of(ids, upd, n) =~= map_of(ids, vals, n).insert(ids[k], v));
    }
}

/// Why a contribution was refused.
#[derive(Clone, Copy, Debug, PartialEq, Eq)]
pub enum GradientError {
    /// The contribution's length differs from the accumulator's.
    LengthMismatch { expected: usize, found: usize },
}

/// One gradient accumulator per parameter id.
pub struct Gradients<T> {
    ids: Vec<u64>,
    grads: Vec<Vec<T>>,
}

impl<T> View for Gradients<T> {
    type V = Map<u64, Seq<T>>;

    closed spec fn view(&self) -> Map<u64, Seq<T>> {
        map_of(self.ids@, self.grads@.map_values(|g: Vec<T>| g@), self.ids@.len() as int)
    }
}

impl<T: Copy> Gradients<T> {
    /// Well formed: one accumulator per id, each id once.
    pub closed spec fn wf(&self) -> bool {
        &&& self.ids@.len() == self.grads@.len()
        &&& self.ids@.no_duplicates()
    }

    /// An empty map.
    pub fn new() -> (r: Gradients<T>)
        ensures
            r.wf(),
            r@ == Map::<u64, Seq<T>>::empty(),
    {
        Gradients { ids: Vec::new(), grads: Vec::new() }
    }

    fn position(&self, id: u64) -> (r: Option<usize>)
        requires
            self.wf(),
        ensures
            r is None <==> !self@.contains_key(id),
            r is Some ==> r->Some_0 < self.ids@.len() && self.ids@[r->Some_0 as int] == id,
    {
        proof {
            lemma_map_of_entries(self.ids@, self.grads@.map_values(|g: Vec<T>| g@), self.ids@.len() as int);
        }
        let mut k: usize = 0;
        while k < self.ids.len()
            invariant
                self.wf(),
                0 <= k <= self.ids@.len(),
                forall|j: int| 0 <= j < k ==> self.ids@[j] != id,
            decreases self.ids.len() - k,
        {
            if self.ids[k] == id {
                proof {
                    let vals = self.grads@.map_values(|g: Vec<T>| g@);
                    lemma_map_of_entries(self.ids@, vals, self.ids@.len() as int);
                    assert(map_of(self.ids@, vals, self.ids@.len() as int).contains_key(self.ids@[k as int]));
                }
                return Some(k);
            }
            k = k + 1;
        }
        proof {
            if self@.contains_key(id) {
                let j = choose|j: int| 0 <= j < self.ids@.len() && self.ids@[j] == id;
                assert(self.ids@[j] == id);
            }
        }
        None
    }

    /// The accumulator of parameter `id`, if it has one.
    pub fn get(&self, id: u64) -> (r: Option<&Vec<T>>)
        requires
            self.wf(),
        ensures
            r is Some <==> self@.contains_key(id),
            r is Some ==> r->Some_0@ == self@[id],
    {
        proof {
            lemma_map_of_entries(self.ids@, self.grads@.map_values(|g: Vec<T>| g@), self.ids@.len() as int);
        }
        match self.position(id) {
            Some(k) => Some(&self.grads[k]),
            None => None,
        }
    }

    /// The ids that have an accumulator.
    pub fn ids(&self) -> (r: Vec<u64>)
        requires
            self.wf(),
        ensures
            forall|id: u64| r@.contains(id) <==> self@.contains_key(id),
    {
        proof {
            lemma_map_of_entries(self.ids@, self.grads@.map_values(|g: Vec<T>| g@), self.ids@.len() as int);
        }
        let mut r: Vec<u64> = Vec::new();
        let mut k: usize = 0;
        while k < self.ids.len()
            invariant
                0 <= k <= self.ids@.len(),
                r@ == self.ids@.take(k as int),
            decreases self.ids.len() - k,
        {
            r.push(self.ids[k]);
            k = k + 1;
            assert(r@ =~= self.ids@.take(k as int));
        }
        assert(r@ =~= self.ids@);
        proof {
            assert forall|id: u64| r@.contains(id) <==> self@.contains_key(id) by {
                if r@.contains(id) {
                    let j = choose|j: int| 0 <= j < r@.len() && r@[j] == id;
                    assert(self@.contains_key(self.ids@[j]));
                }
                if self@.contains_key(id) {
                    let j = choose|j: int| 0 <= j < self.ids@.len() && self.ids@[j] == id;
                    assert(r@[j] == id);
                }
            }
        }
        r
    }

    /// Adds a contribution to the gradient of parameter `id`. Where `id` has
    /// no accumulator yet the contribution becomes it; otherwise each element
    /// `k` of the accumulator becomes `combine(acc[k], contribution[k])`, and
    /// a contribution of another length is refused, leaving the map as it was.
    pub fn accumulate<A: Fn(T, T) -> T>(&mut self, id: u64, contribution: Vec<T>, combine: A) -> (r: Result<
        (),
        GradientError,
    >)
        requires
            old(self).wf(),
            forall|a: T, b: T| call_requires(combine, (a, b)),
        ensures
            final(self).wf(),
            !old(self)@.contains_key(id) ==> r is Ok && final(self)@ == old(self)@.insert(id, contribution@),
            old(self)@.contains_key(id) ==> {
                let acc = old(self)@[id];
                if acc.len() == contribution@.len() {
                    &&& r is Ok
                    &&& final(self)@.dom() == old(self)@.dom()
                    &&& final(self)@ == old(self)@.insert(id, final(self)@[id])
                    &&& final(self)@[id].len() == acc.len()
                    &&& forall|k: int|
                        0 <= k < acc.len() ==> call_ensures(
                            combine,
                            (acc[k], contribution@[k]),
                            #[trigger] final(self)@[id][k],
                        )
                } else {
                    &&& r == Err::<(), GradientError>(
                        GradientError::LengthMismatch {
                            expected: acc.len() as usize,
                            found: contribution@.len() as usize,
                        },
                    )
                    &&& final(self)@ == old(self)@
                }
            },
    {
        let ghost vals0 = self.grads@.map_values(|g: Vec<T>| g@);
        proof {
            lemma_map_of_entries(self.ids@, vals0, self.ids@.len() as int);
        }
        match self.position(id) {
            None => {
                self.ids.push(id);
                self.grads.push(contribution);
                proof {
                    let vals1 = self.grads@.map_values(|g: Vec<T>| g@);
                    lemma_map_of_prefix(self.ids@, vals1, vals0, self.ids@.len() - 1);
                    let n0 = self.ids@.len() - 1;
                    assert(self.ids@.drop_last() =~= old(self).ids@);
                    lemma_map_of_prefix_ids(old(self).ids@, self.ids@, vals0, n0);
                    assert forall|i: int, j: int|
                        0 <= i < self.ids@.len() && 0 <= j < self.ids@.len() && i != j implies self.ids@[i]
                        != self.ids@[j] by {
                        if i == n0 {
                            assert(old(self)@.contains_key(old(self).ids@[j]));
                        }
                        if j == n0 {
                            assert(old(self)@.contains_key(old(self).ids@[i]));
                        }
                    }
                }
                Ok(())
            },
            Some(k) => {
                let n = self.grads[k].len();
                if n != contribution.len() {
                    return Err(GradientError::LengthMismatch { expected: n, found: contribution.len() });
                }
                let mut acc: Vec<T> = Vec::new();
                let mut j: usize = 0;
                while j < n
                    invariant
                        self.wf(),
                        k < self.grads@.len(),
                        n == self.grads@[k as int]@.len(),
                        n == contribution@.len(),
                        forall|a: T, b: T| call_requires(combine, (a, b)),
                        0 <= j <= n,
                        acc@.len() == j,
                        forall|i: int|
                            0 <= i < j ==> call_ensures(
                                combine,
                                (self.grads@[k as int]@[i], contribution@[i]),
                                #[trigger] acc@[i],
                            ),
                    decreases n - j,
                {
                    let v = combine(self.grads[k][j], contribution[j]);
                    acc.push(v);
                    j = j + 1;
                }
                let ghost accv = acc@;
                self.grads.set(k, acc);
                proof {
                    let vals1 = self.grads@.map_values(|g: Vec<T>| g@);
                    assert(vals1 =~= vals0.update(k as int, accv));
                    lemma_map_of_update(self.ids@, vals0, self.ids@.len() as int, k as int, accv);
                    assert(self@ == old(self)@.insert(id, accv));
                    assert(self@.dom() =~= old(self)@.dom());
                }
                Ok(())
            },
        }
    }
}

proof fn lemma_map_of_prefix_ids<T>(a: Seq<u64>, b: Seq<u64>, vals: Seq<Seq<T>>, n: int)
    requires
        0 <= n <= a.len(),
        n <= b.len(),
        forall|k: int| 0 <= k < n ==> a[k] == b[k],
    ensures
        map_of(a, vals, n) == map_of(b, vals, n),
    decreases n,
{
    if n > 0 {
        lemma_map_of_prefix_ids(a, b, vals, n - 1);
    }
}

} // verus!
