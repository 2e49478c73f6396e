//! Gather and select along one axis of a contiguous tensor viewed as
//! `[outer, n, inner]`: gather replaces the axis by `m` indexed positions
//! per outer position, select removes it by picking one.
use vstd::prelude::*;
use crate::conv2d::lemma_radix;
use crate::elementwise::{accum_trace, accumulated, lemma_accum_step};

verus! {

/// Input offset read by output offset `t` of a gather: with
/// `t = (a * m + j) * inner + c`, the element `(a, idx[a * m + j], c)`.
pub open spec fn gather_src(n: int, inner: int, m: int, idx: Seq<usize>, t: int) -> int {
    let c = t % inner;
    let j = (t / inner) % m;
    let a = t / inner / m;
    (a * n + idx[a * m + j]) * inner + c
}

/// Every index is below the extent `n` of the indexed axis.
pub open spec fn indices_below(idx: Seq<usize>, n: int) -> bool {
    forall|k: int| 0 <= k < idx.len() ==> #[trigger] idx[k] < n
}

/// The `(input offset, output offset)` pairs of the first `total` outputs of a gather.
pub open spec fn gather_events(n: int, inner: int, m: int, idx: Seq<usize>, total: int) -> Seq<(usize, usize)>
    decreases total,
{
    if total <= 0 {
        Seq::empty()
    } else {
        gather_events(n, inner, m, idx, total - 1).push(
            (gather_src(n, inner, m, idx, total - 1) as usize, (total - 1) as usize),
        )
    }
}

fn indices_ok(idx: &Vec<usize>, n: usize) -> (r: bool)
    ensures
        r == indices_below(idx@, n as int),
{
    let mut k: usize = 0;
    while k < idx.len()
        invariant
            0 <= k <= idx@.len(),
            forall|j: int| 0 <= j < k ==> #[trigger] idx@[j] < n,
        decreases idx.len() - k,
    {
        if idx[k] >= n {
            return false;
        }
        k = k + 1;
    }
    true
}

fn source_of(outer: usize, n: usize, inner: usize, m: usize, idx: &Vec<usize>, t: usize) -> (r: usize)
    requires
        outer * m <= usize::MAX,
        (outer * n) * inner <= usize::MAX,
        t < (outer * m) * inner,
        idx@.len() == outer * m,
        indices_below(idx@, n as int),
    ensures
        r == gather_src(n as int, inner as int, m as int, idx@, t as int),
        r < (outer * n) * inner,
        (t as int / inner as int / m as int) * m + (t as int / inner as int) % (m as int) < idx@.len(),
{
    proof {
        let (oo, nn, ii, mm) = (outer as int, n as int, inner as int, m as int);
        if ii == 0 || mm == 0 {
            assert((oo * mm) * ii == 0) by (nonlinear_arith)
                requires
                    ii == 0 || mm == 0,
            ;
        }
        crate::pool2d::lemma_div_below(t as int, oo * mm, ii);
        crate::pool2d::lemma_div_below(t as int / ii, oo, mm);
        vstd::arithmetic::div_mod::lemma_mod_bound(t as int, ii);
        vstd::arithmetic::div_mod::lemma_mod_bound(t as int / ii, mm);
        let a = t as int / ii / mm;
        let j = (t as int / ii) % mm;
        lemma_radix(a, oo, j, mm);
        let x = idx@[a * mm + j] as int;
        assert(x < nn);
        lemma_radix(a, oo, x, nn);
        lemma_radix(a * nn + x, oo * nn, t as int % ii, ii);
        assert(oo * nn <= (oo * nn) * ii) by (nonlinear_arith)
            requires
                ii >= 1,
                oo * nn >= 0,
        ;
        vstd::arithmetic::mul::lemma_mul_nonnegative(oo, nn);
        vstd::arithmetic::mul::lemma_mul_nonnegative(a * nn + x, ii);
        vstd::arithmetic::mul::lemma_mul_nonnegative(a, nn);
    }
    let c = t % inner;
    let q = t / inner;
    let j = q % m;
    let a = q / m;
    let x = idx[a * m + j];
    (a * n + x) * inner + c
}

/// Gathers along the middle axis of a contiguous `[outer, n, inner]` input:
/// a fresh contiguous `[outer, m, inner]` output whose element
/// `(a, j, c)` is the input element `(a, idx[a * m + j], c)`. `None` where
/// an index is not below `n` or a buffer length does not match the shapes.
pub fn gather_forward<T: Copy>(
    outer: usize,
    n: usize,
    inner: usize,
    inp: &Vec<T>,
    m: usize,
    idx: &Vec<usize>,
) -> (r: Option<Vec<T>>)
    requires
        outer * n <= usize::MAX,
        outer * m <= usize::MAX,
        (outer * n) * inner <= usize::MAX,
        (outer * m) * inner <= usize::MAX,
    ensures
        r is Some <==> inp@.len() == (outer * n) * inner && idx@.len() == outer * m && indices_below(
            idx@,
            n as int,
        ),
        r is Some ==> r->Some_0@.len() == (outer * m) * inner && forall|t: int|
            0 <= t < (outer * m) * inner ==> #[trigger] r->Some_0@[t] == inp@[gather_src(
                n as int,
                inner as int,
                m as int,
                idx@,
                t,
            )],
{
    let total_in = if inner == 0 { 0 } else { proof { assert(outer * n <= (outer * n) * inner) by (nonlinear_arith) requires inner >= 1; } outer * n * inner };
    if inp.len() != total_in || idx.len() != outer * m || !indices_ok(idx, n) {
        proof {
            if inner == 0 {
                assert((outer * n) * inner == 0) by (nonlinear_arith)
                    requires
                        inner == 0,
                ;
            }
        }
        return None;
    }
    let total = if inner == 0 { 0 } else { outer * m * inner };
    proof {
        if inner == 0 {
            assert((outer * m) * inner == 0) by (nonlinear_arith)
                requires
                    inner == 0,
            ;
        }
    }
    let mut out: Vec<T> = Vec::new();
    let mut t: usize = 0;
    while t < total
        invariant
            total == (outer * m) * inner,
            outer * m <= usize::MAX,
            (outer * n) * inner <= usize::MAX,
            inp@.len() == (outer * n) * inner,
            idx@.len() == outer * m,
            indices_below(idx@, n as int),
            0 <= t <= total,
            out@.len() == t,
            forall|s: int|
                0 <= s < t ==> #[trigger] out@[s] == inp@[gather_src(n as int, inner as int, m as int, idx@, s)],
        decreases total - t,
    {
        let src = source_of(outer, n, inner, m, idx, t);
        out.push(inp[src]);
        t = t + 1;
    }
    Some(out)
}

/// Selects along the middle axis of a contiguous `[outer, n, inner]` input:
/// a fresh contiguous `[outer, inner]` output whose element `(a, c)` is the
/// input element `(a, idx[a], c)`; a gather with one index per outer position.
pub fn select_forward<T: Copy>(outer: usize, n: usize, inner: usize, inp: &Vec<T>, idx: &Vec<usize>) -> (r: Option<Vec<T>>)
    requires
        outer * n <= usize::MAX,
        (outer * n) * inner <= usize::MAX,
        outer * inner <= usize::MAX,
    ensures
        r is Some <==> inp@.len() == (outer * n) * inner && idx@.len() == outer && indices_below(idx@, n as int),
        r is Some ==> r->Some_0@.len() == outer * inner && forall|t: int|
            0 <= t < outer * inner ==> #[trigger] r->Some_0@[t] == inp@[gather_src(n as int, inner as int, 1, idx@, t)],
{
    assert((outer * 1) * inner == outer * inner);
    gather_forward(outer, n, inner, inp, 1, idx)
}

/// Backward pass of a gather: for every output offset `t` in order, adds
/// `grad_out[t]` with `add_fn` into the input gradient at the offset `t`
/// read, so an input element gathered several times receives every
/// contribution. `None`, with the gradient unchanged, where an index is not
/// below `n` or a buffer length does not match the shapes.
pub fn gather_backward<T: Copy, A: Fn(T, T) -> T>(
    outer: usize,
    n: usize,
    inner: usize,
    grad_inp: &mut Vec<T>,
    m: usize,
    idx: &Vec<usize>,
    grad_out: &Vec<T>,
    add_fn: A,
) -> (r: Option<()>)
    requires
        outer * n <= usize::MAX,
        outer * m <= usize::MAX,
        (outer * n) * inner <= usize::MAX,
        (outer * m) * inner <= usize::MAX,
        forall|x: T, y: T| call_requires(add_fn, (x, y)),
    ensures
        r is Some <==> old(grad_inp)@.len() == (outer * n) * inner && grad_out@.len() == (outer * m) * inner
            && idx@.len() == outer * m && indices_below(idx@, n as int),
        r is None ==> final(grad_inp)@ == old(grad_inp)@,
        r is Some ==> final(grad_inp)@.len() == old(grad_inp)@.len() && accumulated(
            add_fn,
            grad_out@,
            old(grad_inp)@,
            gather_events(n as int, inner as int, m as int, idx@, (outer * m) * inner),
            final(grad_inp)@,
        ),
{
    proof {
        if inner == 0 {
            assert((outer * n) * inner == 0 && (outer * m) * inner == 0) by (nonlinear_arith)
                requires
                    inner == 0,
            ;
        } else {
            assert(outer * m <= (outer * m) * inner && outer * n <= (outer * n) * inner) by (nonlinear_arith)
                requires
                    inner >= 1,
            ;
        }
    }
    let total_in = if inner == 0 { 0 } else { outer * n * inner };
    let total = if inner == 0 { 0 } else { outer * m * inner };
    if grad_inp.len() != total_in || grad_out.len() != total || idx.len() != outer * m || !indices_ok(idx, n) {
        return None;
    }
    let ghost g0 = grad_inp@;
    let ghost mut states: Seq<Seq<T>> = seq![g0];
    let mut t: usize = 0;
    assert(gather_events(n as int, inner as int, m as int, idx@, 0) =~= Seq::<(usize, usize)>::empty());
    while t < total
        invariant
            total == (outer * m) * inner,
            outer * m <= usize::MAX,
            (outer * n) * inner <= usize::MAX,
            grad_inp@.len() == (outer * n) * inner,
            grad_out@.len() == total,
            idx@.len() == outer * m,
            indices_below(idx@, n as int),
            forall|x: T, y: T| call_requires(add_fn, (x, y)),
            0 <= t <= total,
            accum_trace(add_fn, grad_out@, gather_events(n as int, inner as int, m as int, idx@, t as int), states),
            states[0] == g0,
            states.last() == grad_inp@,
        decreases total - t,
    {
        let src = source_of(outer, n, inner, m, idx, t);
        let v = add_fn(grad_inp[src], grad_out[t]);
        grad_inp.set(src, v);
        proof {
            lemma_accum_step(
                add_fn,
                grad_out@,
                gather_events(n as int, inner as int, m as int, idx@, t as int),
                states,
                src,
                t,
                grad_inp@,
            );
            states = states.push(grad_inp@);
        }
        t = t + 1;
    }
    Some(())
}

/// Backward pass of a select: a gather backward with one index per outer position.
pub fn select_backward<T: Copy, A: Fn(T, T) -> T>(
    outer: usize,
    n: usize,
    inner: usize,
    grad_inp: &mut Vec<T>,
    idx: &Vec<usize>,
    grad_out: &Vec<T>,
    add_fn: A,
) -> (r: Option<()>)
    requires
        outer * n <= usize::MAX,
        (outer * n) * inner <= usize::MAX,
        outer * inner <= usize::MAX,
        forall|x: T, y: T| call_requires(add_fn, (x, y)),
    ensures
        r is Some <==> old(grad_inp)@.len() == (outer * n) * inner && grad_out@.len() == outer * inner
            && idx@.len() == outer && indices_below(idx@, n as int),
        r is None ==> final(grad_inp)@ == old(grad_inp)@,
        r is Some ==> final(grad_inp)@.len() == old(grad_inp)@.len() && accumulated(
            add_fn,
            grad_out@,
            old(grad_inp)@,
            gather_events(n as int, inner as int, 1, idx@, outer * inner),
            final(grad_inp)@,
        ),
{
    assert((outer * 1) * inner == outer * inner);
    gather_backward(outer, n, inner, grad_inp, 1, idx, grad_out, add_fn)
}

} // verus!
