//! Reductions over some axes of a strided tensor (min, max, sum), on the
//! host: every input element is folded into the output slot that the
//! output's broadcast strides (zero on the reduced axes) map it to.
use vstd::prelude::*;
use crate::elementwise::{accum_trace, accumulated, check_reads_within, lemma_accum_step, numel, reads_within, strided, strided_offset};
use crate::pool2d::{route_trace, routed};
use crate::shapes::{
    broadcast_strides, default_strides, kept_before, lemma_kept_before_bounds, num_elements, product, product_fits,
    row_major_fits, row_major_stride,
};

verus! {

/// `(output offset, input offset)` of the logical indices `i < n` of the
/// input, in order: the folds of a reduction's forward pass.
pub open spec fn reduce_events(
    dims: Seq<usize>,
    inp_strides: Seq<usize>,
    out_strides: Seq<usize>,
    n: int,
) -> Seq<(usize, usize)>
    decreases n,
{
    if n <= 0 {
        Seq::empty()
    } else {
        reduce_events(dims, inp_strides, out_strides, n - 1).push(
            (strided(dims, out_strides, n - 1) as usize, strided(dims, inp_strides, n - 1) as usize),
        )
    }
}

/// `(input offset, output offset)` of the logical indices `i < n` of the
/// input, in order: the steps of a reduction's backward pass.
pub open spec fn reduce_pairs(
    dims: Seq<usize>,
    inp_strides: Seq<usize>,
    out_strides: Seq<usize>,
    n: int,
) -> Seq<(usize, usize)>
    decreases n,
{
    if n <= 0 {
        Seq::empty()
    } else {
        reduce_pairs(dims, inp_strides, out_strides, n - 1).push(
            (strided(dims, inp_strides, n - 1) as usize, strided(dims, out_strides, n - 1) as usize),
        )
    }
}

/// Forward pass of a reduction: a fresh output of `out_len` elements, each
/// starting at `init` (`+inf` for min, `-inf` for max, `0` for sum), then,
/// for every logical index of the input in order,
/// `out[o] = combine(out[o], inp[i])` with `i` its input offset and `o` its
/// offset under `out_strides`, the output's strides broadcast back to the
/// input's shape (zero on the reduced axes).
pub fn reduce_forward<T: Copy, F: Fn(T, T) -> T>(
    dims: &Vec<usize>,
    inp: &Vec<T>,
    inp_strides: &Vec<usize>,
    out_strides: &Vec<usize>,
    out_len: usize,
    init: T,
    combine: F,
) -> (out: Vec<T>)
    requires
        product(dims@) <= usize::MAX,
        reads_within(dims@, inp_strides@, inp@.len() as int),
        reads_within(dims@, out_strides@, out_len as int),
        forall|a: T, v: T| call_requires(combine, (a, v)),
    ensures
        out@.len() == out_len,
        accumulated(
            combine,
            inp@,
            Seq::new(out_len as nat, |k: int| init),
            reduce_events(dims@, inp_strides@, out_strides@, product(dims@)),
            out@,
        ),
{
    let mut out: Vec<T> = Vec::new();
    let mut k: usize = 0;
    while k < out_len
        invariant
            0 <= k <= out_len,
            out@ == Seq::new(k as nat, |j: int| init),
        decreases out_len - k,
    {
        out.push(init);
        k = k + 1;
        assert(out@ =~= Seq::new(k as nat, |j: int| init));
    }
    let ghost start = out@;
    let ghost mut states: Seq<Seq<T>> = seq![start];
    let n = numel(dims);
    let mut i: usize = 0;
    assert(reduce_events(dims@, inp_strides@, out_strides@, 0) =~= Seq::<(usize, usize)>::empty());
    while i < n
        invariant
            n == product(dims@),
            reads_within(dims@, inp_strides@, inp@.len() as int),
            reads_within(dims@, out_strides@, out_len as int),
            out@.len() == out_len,
            forall|a: T, v: T| call_requires(combine, (a, v)),
            0 <= i <= n,
            accum_trace(combine, inp@, reduce_events(dims@, inp_strides@, out_strides@, i as int), states),
            states[0] == start,
            states.last() == out@,
        decreases n - i,
    {
        let inp_len = inp.len();
        assert(strided(dims@, inp_strides@, i as int) < inp_len);
        assert(strided(dims@, out_strides@, i as int) < out_len);
        let io = strided_offset(dims, inp_strides, i);
        let oo = strided_offset(dims, out_strides, i);
        let v = combine(out[oo], inp[io]);
        out.set(oo, v);
        proof {
            lemma_accum_step(
                combine,
                inp@,
                reduce_events(dims@, inp_strides@, out_strides@, i as int),
                states,
                oo,
                io,
                out@,
            );
            states = states.push(out@);
        }
        i = i + 1;
    }
    out
}

proof fn lemma_route_step<T, S: Fn(T, T, T, T) -> T>(
    step: S,
    inp: Seq<T>,
    out: Seq<T>,
    grad_out: Seq<T>,
    pairs: Seq<(usize, usize)>,
    states: Seq<Seq<T>>,
    i: usize,
    t: usize,
    next: Seq<T>,
)
    requires
        route_trace(step, inp, out, grad_out, pairs, states),
        next == states.last().update(i as int, next[i as int]),
        call_ensures(step, (states.last()[i as int], inp[i as int], out[t as int], grad_out[t as int]), next[i as int]),
    ensures
        route_trace(step, inp, out, grad_out, pairs.push((i, t)), states.push(next)),
{
    let ps = pairs.push((i, t));
    let st = states.push(next);
    assert forall|k: int| 0 <= k < ps.len() implies {
        let (i, t) = #[trigger] ps[k];
        &&& st[k + 1] == st[k].update(i as int, st[k + 1][i as int])
        &&& call_ensures(step, (st[k][i as int], inp[i as int], out[t as int], grad_out[t as int]), st[k + 1][i as int])
    } by {
        if k < pairs.len() {
            assert(ps[k] == pairs[k]);
            assert(st[k] == states[k]);
            assert(st[k + 1] == states[k + 1]);
        }
    }
}

/// Backward pass of a reduction: for every logical index of the input in
/// order, with `i` its input offset and `o` its output offset, sets
/// `grad_inp[i] = step(grad_inp[i], inp[i], out[o], grad_out[o])`. For min
/// and max the step adds `grad_out[o]` where `inp[i] == out[o]`; for a sum
/// it adds `grad_out[o]` everywhere.
pub fn reduce_backward<T: Copy, S: Fn(T, T, T, T) -> T>(
    dims: &Vec<usize>,
    inp: &Vec<T>,
    inp_strides: &Vec<usize>,
    grad_inp: &mut Vec<T>,
    out: &Vec<T>,
    grad_out: &Vec<T>,
    out_strides: &Vec<usize>,
    step: S,
)
    requires
        product(dims@) <= usize::MAX,
        reads_within(dims@, inp_strides@, inp@.len() as int),
        old(grad_inp)@.len() == inp@.len(),
        reads_within(dims@, out_strides@, out@.len() as int),
        grad_out@.len() == out@.len(),
        forall|g: T, x: T, o: T, go: T| call_requires(step, (g, x, o, go)),
    ensures
        final(grad_inp)@.len() == inp@.len(),
        routed(
            step,
            inp@,
            out@,
            grad_out@,
            old(grad_inp)@,
            reduce_pairs(dims@, inp_strides@, out_strides@, product(dims@)),
            final(grad_inp)@,
        ),
{
    let ghost g0 = grad_inp@;
    let ghost mut states: Seq<Seq<T>> = seq![g0];
    let n = numel(dims);
    let mut i: usize = 0;
    assert(reduce_pairs(dims@, inp_strides@, out_strides@, 0) =~= Seq::<(usize, usize)>::empty());
    while i < n
        invariant
            n == product(dims@),
            reads_within(dims@, inp_strides@, inp@.len() as int),
            reads_within(dims@, out_strides@, out@.len() as int),
            grad_inp@.len() == inp@.len(),
            grad_out@.len() == out@.len(),
            forall|g: T, x: T, o: T, go: T| call_requires(step, (g, x, o, go)),
            0 <= i <= n,
            route_trace(step, inp@, out@, grad_out@, reduce_pairs(dims@, inp_strides@, out_strides@, i as int), states),
            states[0] == g0,
            states.last() == grad_inp@,
        decreases n - i,
    {
        let inp_len = inp.len();
        let out_len = out.len();
        assert(strided(dims@, inp_strides@, i as int) < inp_len);
        assert(strided(dims@, out_strides@, i as int) < out_len);
        let io = strided_offset(dims, inp_strides, i);
        let oo = strided_offset(dims, out_strides, i);
        let v = step(grad_inp[io], inp[io], out[oo], grad_out[oo]);
        grad_inp.set(io, v);
        proof {
            lemma_route_step(
                step,
                inp@,
                out@,
                grad_out@,
                reduce_pairs(dims@, inp_strides@, out_strides@, i as int),
                states,
                io,
                oo,
                grad_inp@,
            );
            states = states.push(grad_inp@);
        }
        i = i + 1;
    }
}

/// The extents of the kept (not reduced) axes among the first `n`, in order:
/// the shape of a reduction's output.
pub open spec fn kept_dims(dims: Seq<usize>, reduced: Seq<bool>, n: int) -> Seq<usize>
    decreases n,
{
    if n <= 0 {
        Seq::empty()
    } else if reduced[n - 1] {
        kept_dims(dims, reduced, n - 1)
    } else {
        kept_dims(dims, reduced, n - 1).push(dims[n - 1])
    }
}

proof fn lemma_kept_dims_len(dims: Seq<usize>, reduced: Seq<bool>, n: int)
    requires
        0 <= n,
    ensures
        kept_dims(dims, reduced, n).len() == kept_before(reduced, n),
    decreases n,
{
    if n > 0 {
        lemma_kept_dims_len(dims, reduced, n - 1);
    }
}

/// Strides that read the contiguous output of a reduction under the
/// input's shape: zero on reduced axes, the output's row-major stride on kept ones.
pub open spec fn reduced_out_strides(dims: Seq<usize>, reduced: Seq<bool>) -> Seq<usize> {
    let kept = kept_dims(dims, reduced, dims.len() as int);
    Seq::new(
        dims.len(),
        |k: int| if reduced[k] { 0usize } else { row_major_stride(kept, kept_before(reduced, k)) as usize },
    )
}

/// A reduction of `dims` over the `reduced` axes can lay out its output:
/// the output's element count and row-major strides fit in a `usize`, and
/// every input index maps inside the output.
pub open spec fn reduce_to_ok(dims: Seq<usize>, reduced: Seq<bool>) -> bool {
    let kept = kept_dims(dims, reduced, dims.len() as int);
    &&& product_fits(kept)
    &&& row_major_fits(kept)
    &&& reads_within(dims, reduced_out_strides(dims, reduced), product(kept))
}

/// Reduces the `reduced` axes of a strided input: returns the output's
/// extents (the input's with the reduced axes removed) and a fresh
/// contiguous output of that shape, each element folded from `init` with
/// `combine` over the input elements that map to it, in input order.
pub fn reduce_to<T: Copy, F: Fn(T, T) -> T>(
    dims: &Vec<usize>,
    inp: &Vec<T>,
    inp_strides: &Vec<usize>,
    reduced: &Vec<bool>,
    init: T,
    combine: F,
) -> (r: Option<(Vec<usize>, Vec<T>)>)
    requires
        product(dims@) <= usize::MAX,
        reads_within(dims@, inp_strides@, inp@.len() as int),
        reduced@.len() == dims@.len(),
        forall|a: T, v: T| call_requires(combine, (a, v)),
    ensures
        r is Some <==> reduce_to_ok(dims@, reduced@),
        r is Some ==> ({
            let (out_dims, out) = r->Some_0;
            let kept = kept_dims(dims@, reduced@, dims@.len() as int);
            &&& out_dims@ == kept
            &&& out@.len() == product(kept)
            &&& accumulated(
                combine,
                inp@,
                Seq::new(out@.len(), |k: int| init),
                reduce_events(dims@, inp_strides@, reduced_out_strides(dims@, reduced@), product(dims@)),
                out@,
            )
        }),
{
    let mut kept: Vec<usize> = Vec::new();
    let mut k: usize = 0;
    while k < dims.len()
        invariant
            reduced@.len() == dims@.len(),
            0 <= k <= dims@.len(),
            kept@ == kept_dims(dims@, reduced@, k as int),
        decreases dims.len() - k,
    {
        if !reduced[k] {
            kept.push(dims[k]);
        }
        k = k + 1;
    }
    proof {
        lemma_kept_dims_len(dims@, reduced@, dims@.len() as int);
        lemma_kept_before_bounds(reduced@, dims@.len() as int);
    }
    let out_len = match num_elements(&kept) {
        Some(v) => v,
        None => return None,
    };
    let rm = match default_strides(&kept) {
        Some(v) => v,
        None => return None,
    };
    let out_strides = broadcast_strides(reduced, &rm);
    proof {
        assert forall|j: int| 0 <= j < dims@.len() implies out_strides@[j] == reduced_out_strides(dims@, reduced@)[j] by {
            if !reduced@[j] {
                assert(kept_before(reduced@, j + 1) == kept_before(reduced@, j) + 1);
                assert(kept_before(reduced@, j + 1) <= kept_before(reduced@, dims@.len() as int));
                lemma_kept_before_bounds(reduced@, j);
                assert(rm@[kept_before(reduced@, j)] == row_major_stride(kept@, kept_before(reduced@, j)));
            }
        }
        assert(out_strides@ =~= reduced_out_strides(dims@, reduced@));
    }
    if !check_reads_within(dims, &out_strides, out_len) {
        return None;
    }
    let out = reduce_forward(dims, inp, inp_strides, &out_strides, out_len, init, combine);
    Some((kept, out))
}

} // verus!
