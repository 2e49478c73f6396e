//! Elementwise kernels over operands that share a logical shape but each
//! carry their own strides, so a broadcast (zero-stride) operand is read in
//! place: comparisons, which yield booleans, and the choose kernel, which
//! picks per element between two operands under a boolean mask.
use vstd::prelude::*;
use crate::shapes::{lemma_product_nonneg, product};

verus! {

/// Physical offset of the row-major logical index `i` over the first `n`
/// axes: each axis, from the last, takes its coordinate `i % dims[k]` and
/// passes `i / dims[k]` on.
pub open spec fn offset_of(dims: Seq<usize>, strides: Seq<usize>, i: int, n: int) -> int
    decreases n,
{
    if n <= 0 {
        0
    } else {
        (i % (dims[n - 1] as int)) * strides[n - 1] + offset_of(dims, strides, i / (dims[n - 1] as int), n - 1)
    }
}

/// Physical offset of logical index `i` of a tensor with extents `dims` and strides `strides`.
pub open spec fn strided(dims: Seq<usize>, strides: Seq<usize>, i: int) -> int {
    offset_of(dims, strides, i, dims.len() as int)
}

/// Every logical index of the shape reaches an offset below `len`.
pub open spec fn reads_within(dims: Seq<usize>, strides: Seq<usize>, len: int) -> bool {
    &&& strides.len() == dims.len()
    &&& forall|i: int| 0 <= i < product(dims) ==> #[trigger] strided(dims, strides, i) < len
}

proof fn lemma_offset_nonneg(dims: Seq<usize>, strides: Seq<usize>, i: int, n: int)
    requires
        i >= 0,
        0 <= n <= dims.len(),
        n <= strides.len(),
        forall|k: int| 0 <= k < n ==> dims[k] > 0,
    ensures
        offset_of(dims, strides, i, n) >= 0,
    decreases n,
{
    if n > 0 {
        let d = dims[n - 1] as int;
        vstd::arithmetic::div_mod::lemma_mod_bound(i, d);
        vstd::arithmetic::div_mod::lemma_div_pos_is_pos(i, d);
        vstd::arithmetic::mul::lemma_mul_nonnegative(i % d, strides[n - 1] as int);
        lemma_offset_nonneg(dims, strides, i / d, n - 1);
    }
}

proof fn lemma_positive_extents(dims: Seq<usize>)
    requires
        product(dims) > 0,
    ensures
        forall|k: int| 0 <= k < dims.len() ==> dims[k] > 0,
    decreases dims.len(),
{
    if dims.len() > 0 {
        let p = product(dims.drop_last());
        lemma_product_nonneg(dims.drop_last());
        if p == 0 {
            assert(p * dims.last() == 0);
        }
        if dims.last() == 0 {
            assert(p * dims.last() == 0);
        }
        lemma_positive_extents(dims.drop_last());
        assert forall|k: int| 0 <= k < dims.len() implies dims[k] > 0 by {
            if k < dims.len() - 1 {
                assert(dims[k] == dims.drop_last()[k]);
            }
        }
    }
}

/// Physical offset of logical index `i` (row-major order) of a tensor with
/// extents `dims` and strides `strides`.
pub fn strided_offset(dims: &Vec<usize>, strides: &Vec<usize>, i: usize) -> (r: usize)
    requires
        strides@.len() == dims@.len(),
        i < product(dims@),
        strided(dims@, strides@, i as int) <= usize::MAX,
    ensures
        r == strided(dims@, strides@, i as int),
{
    proof {
        lemma_positive_extents(dims@);
    }
    let mut acc: usize = 0;
    let mut q: usize = i;
    let mut k: usize = dims.len();
    while k > 0
        invariant
            strides@.len() == dims@.len(),
            0 <= k <= dims@.len(),
            forall|j: int| 0 <= j < dims@.len() ==> dims@[j] > 0,
            acc + offset_of(dims@, strides@, q as int, k as int) == strided(dims@, strides@, i as int),
            strided(dims@, strides@, i as int) <= usize::MAX,
        decreases k,
    {
        let d = dims[k - 1];
        proof {
            lemma_offset_nonneg(dims@, strides@, q as int / d as int, k - 1);
            vstd::arithmetic::div_mod::lemma_mod_bound(q as int, d as int);
            vstd::arithmetic::mul::lemma_mul_nonnegative(q as int % d as int, strides@[k - 1] as int);
        }
        acc = acc + (q % d) * strides[k - 1];
        q = q / d;
        k = k - 1;
    }
    acc
}

proof fn lemma_product_at_least_one(s: Seq<usize>)
    requires
        forall|k: int| 0 <= k < s.len() ==> s[k] >= 1,
    ensures
        product(s) >= 1,
    decreases s.len(),
{
    if s.len() > 0 {
        lemma_product_at_least_one(s.drop_last());
        vstd::arithmetic::mul::lemma_mul_inequality(1, product(s.drop_last()), s.last() as int);
        vstd::arithmetic::mul::lemma_mul_is_commutative(product(s.drop_last()), s.last() as int);
    }
}

/// Number of logical elements of a shape whose element count fits in a `usize`.
pub fn numel(dims: &Vec<usize>) -> (r: usize)
    requires
        product(dims@) <= usize::MAX,
    ensures
        r == product(dims@),
{
    let mut k: usize = 0;
    while k < dims.len()
        invariant
            0 <= k <= dims@.len(),
            forall|j: int| 0 <= j < k ==> dims@[j] >= 1,
        decreases dims.len() - k,
    {
        if dims[k] == 0 {
            proof {
                lemma_zero_extent(dims@, k as int);
            }
            return 0;
        }
        k = k + 1;
    }
    let mut acc: usize = 1;
    let mut j: usize = 0;
    assert(dims@.take(0) =~= Seq::<usize>::empty());
    while j < dims.len()
        invariant
            0 <= j <= dims@.len(),
            forall|t: int| 0 <= t < dims@.len() ==> dims@[t] >= 1,
            product(dims@) <= usize::MAX,
            acc == product(dims@.take(j as int)),
        decreases dims.len() - j,
    {
        proof {
            let head = dims@.take(j + 1);
            let tail = dims@.skip(j + 1);
            crate::shapes::lemma_product_append(head, tail);
            assert(head + tail =~= dims@);
            lemma_product_at_least_one(tail);
            lemma_product_at_least_one(head);
            vstd::arithmetic::mul::lemma_mul_inequality(1, product(tail), product(head));
            vstd::arithmetic::mul::lemma_mul_is_commutative(product(head), product(tail));
            assert(head.drop_last() =~= dims@.take(j as int));
        }
        acc = acc * dims[j];
        j = j + 1;
    }
    assert(dims@.take(dims@.len() as int) =~= dims@);
    acc
}

proof fn lemma_zero_extent(dims: Seq<usize>, k: int)
    requires
        0 <= k < dims.len(),
        dims[k] == 0,
    ensures
        product(dims) == 0,
    decreases dims.len(),
{
    if k == dims.len() - 1 {
        assert(product(dims) == product(dims.drop_last()) * 0);
    } else {
        assert(dims.drop_last()[k] == 0);
        lemma_zero_extent(dims.drop_last(), k);
    }
}

/// Compares two operands element by element: `out[i] = cmp(lhs[..], rhs[..])`
/// at each logical index `i`, each operand read through its own strides. The
/// result is a fresh contiguous boolean tensor of the same shape.
pub fn cmp_forward<T: Copy, F: Fn(T, T) -> bool>(
    dims: &Vec<usize>,
    lhs: &Vec<T>,
    lhs_strides: &Vec<usize>,
    rhs: &Vec<T>,
    rhs_strides: &Vec<usize>,
    cmp: F,
) -> (out: Vec<bool>)
    requires
        product(dims@) <= usize::MAX,
        reads_within(dims@, lhs_strides@, lhs@.len() as int),
        reads_within(dims@, rhs_strides@, rhs@.len() as int),
        forall|a: T, b: T| call_requires(cmp, (a, b)),
    ensures
        out@.len() == product(dims@),
        forall|i: int|
            0 <= i < product(dims@) ==> call_ensures(
                cmp,
                (lhs@[strided(dims@, lhs_strides@, i)], rhs@[strided(dims@, rhs_strides@, i)]),
                #[trigger] out@[i],
            ),
{
    let n = numel(dims);
    let mut out: Vec<bool> = Vec::new();
    let mut i: usize = 0;
    while i < n
        invariant
            n == product(dims@),
            reads_within(dims@, lhs_strides@, lhs@.len() as int),
            reads_within(dims@, rhs_strides@, rhs@.len() as int),
            forall|a: T, b: T| call_requires(cmp, (a, b)),
            0 <= i <= n,
            out@.len() == i,
            forall|j: int|
                0 <= j < i ==> call_ensures(
                    cmp,
                    (lhs@[strided(dims@, lhs_strides@, j)], rhs@[strided(dims@, rhs_strides@, j)]),
                    #[trigger] out@[j],
                ),
        decreases n - i,
    {
        let lhs_len = lhs.len();
        assert(strided(dims@, lhs_strides@, i as int) < lhs_len);
        let rhs_len = rhs.len();
        assert(strided(dims@, rhs_strides@, i as int) < rhs_len);
        let a = lhs[strided_offset(dims, lhs_strides, i)];
        let b = rhs[strided_offset(dims, rhs_strides, i)];
        out.push(cmp(a, b));
        i = i + 1;
    }
    out
}

/// Compares an operand with a scalar element by element:
/// `out[i] = cmp(lhs[..], scalar)` at each logical index `i`.
pub fn scalar_cmp_forward<T: Copy, F: Fn(T, T) -> bool>(
    dims: &Vec<usize>,
    lhs: &Vec<T>,
    lhs_strides: &Vec<usize>,
    scalar: T,
    cmp: F,
) -> (out: Vec<bool>)
    requires
        product(dims@) <= usize::MAX,
        reads_within(dims@, lhs_strides@, lhs@.len() as int),
        forall|a: T, b: T| call_requires(cmp, (a, b)),
    ensures
        out@.len() == product(dims@),
        forall|i: int|
            0 <= i < product(dims@) ==> call_ensures(
                cmp,
                (lhs@[strided(dims@, lhs_strides@, i)], scalar),
                #[trigger] out@[i],
            ),
{
    let n = numel(dims);
    let mut out: Vec<bool> = Vec::new();
    let mut i: usize = 0;
    while i < n
        invariant
            n == product(dims@),
            reads_within(dims@, lhs_strides@, lhs@.len() as int),
            forall|a: T, b: T| call_requires(cmp, (a, b)),
            0 <= i <= n,
            out@.len() == i,
            forall|j: int|
                0 <= j < i ==> call_ensures(
                    cmp,
                    (lhs@[strided(dims@, lhs_strides@, j)], scalar),
                    #[trigger] out@[j],
                ),
        decreases n - i,
    {
        let lhs_len = lhs.len();
        assert(strided(dims@, lhs_strides@, i as int) < lhs_len);
        let a = lhs[strided_offset(dims, lhs_strides, i)];
        out.push(cmp(a, scalar));
        i = i + 1;
    }
    out
}

/// Picks element by element: `out[i]` is the `lhs` element where the mask
/// holds at logical index `i` and the `rhs` element elsewhere, each operand
/// read through its own strides. The result is a fresh contiguous tensor.
pub fn choose_forward<T: Copy>(
    dims: &Vec<usize>,
    cond: &Vec<bool>,
    cond_strides: &Vec<usize>,
    lhs: &Vec<T>,
    lhs_strides: &Vec<usize>,
    rhs: &Vec<T>,
    rhs_strides: &Vec<usize>,
) -> (out: Vec<T>)
    requires
        product(dims@) <= usize::MAX,
        reads_within(dims@, cond_strides@, cond@.len() as int),
        reads_within(dims@, lhs_strides@, lhs@.len() as int),
        reads_within(dims@, rhs_strides@, rhs@.len() as int),
    ensures
        out@.len() == product(dims@),
        forall|i: int|
            0 <= i < product(dims@) ==> #[trigger] out@[i] == if cond@[strided(dims@, cond_strides@, i)] {
                lhs@[strided(dims@, lhs_strides@, i)]
            } else {
                rhs@[strided(dims@, rhs_strides@, i)]
            },
{
    let n = numel(dims);
    let mut out: Vec<T> = Vec::new();
    let mut i: usize = 0;
    while i < n
        invariant
            n == product(dims@),
            reads_within(dims@, cond_strides@, cond@.len() as int),
            reads_within(dims@, lhs_strides@, lhs@.len() as int),
            reads_within(dims@, rhs_strides@, rhs@.len() as int),
            0 <= i <= n,
            out@.len() == i,
            forall|j: int|
                0 <= j < i ==> #[trigger] out@[j] == if cond@[strided(dims@, cond_strides@, j)] {
                    lhs@[strided(dims@, lhs_strides@, j)]
                } else {
                    rhs@[strided(dims@, rhs_strides@, j)]
                },
        decreases n - i,
    {
        let cond_len = cond.len();
        assert(strided(dims@, cond_strides@, i as int) < cond_len);
        let lhs_len = lhs.len();
        assert(strided(dims@, lhs_strides@, i as int) < lhs_len);
        let rhs_len = rhs.len();
        assert(strided(dims@, rhs_strides@, i as int) < rhs_len);
        let v = if cond[strided_offset(dims, cond_strides, i)] {
            lhs[strided_offset(dims, lhs_strides, i)]
        } else {
            rhs[strided_offset(dims, rhs_strides, i)]
        };
        out.push(v);
        i = i + 1;
    }
    out
}

/// The `(gradient offset, logical index)` pairs, for logical indices `i < n`
/// in order, at which the mask equals `want`: where the backward pass of
/// choose adds `grad_out[i]` into the gradient of the operand it picked.
pub open spec fn choose_events(
    dims: Seq<usize>,
    cond: Seq<bool>,
    cond_strides: Seq<usize>,
    grad_strides: Seq<usize>,
    want: bool,
    n: int,
) -> Seq<(usize, usize)>
    decreases n,
{
    if n <= 0 {
        Seq::empty()
    } else {
        let rest = choose_events(dims, cond, cond_strides, grad_strides, want, n - 1);
        if cond[strided(dims, cond_strides, n - 1)] == want {
            rest.push((strided(dims, grad_strides, n - 1) as usize, (n - 1) as usize))
        } else {
            rest
        }
    }
}

/// `states` traces a gradient buffer through `events`: for the event
/// `(i, t)` the next state is the previous one with entry `i` replaced by
/// what one call `accumulate(grad[i], grad_out[t])` returned.
pub open spec fn accum_trace<T, A: Fn(T, T) -> T>(
    accumulate: A,
    grad_out: Seq<T>,
    events: Seq<(usize, usize)>,
    states: Seq<Seq<T>>,
) -> bool {
    &&& states.len() == events.len() + 1
    &&& forall|k: int|
        0 <= k < events.len() ==> {
            let (i, t) = #[trigger] events[k];
            &&& states[k + 1] == states[k].update(i as int, states[k + 1][i as int])
            &&& call_ensures(accumulate, (states[k][i as int], grad_out[t as int]), states[k + 1][i as int])
        }
}

/// Accumulating `events` with `accumulate`, from the gradient buffer `g0`, can end in `g1`.
pub open spec fn accumulated<T, A: Fn(T, T) -> T>(
    accumulate: A,
    grad_out: Seq<T>,
    g0: Seq<T>,
    events: Seq<(usize, usize)>,
    g1: Seq<T>,
) -> bool {
    exists|states: Seq<Seq<T>>|
        #[trigger] accum_trace(accumulate, grad_out, events, states) && states[0] == g0 && states.last()
            == g1
}

/// One more accumulation extends a trace by the event and the state it leaves.
pub proof fn lemma_accum_step<T, A: Fn(T, T) -> T>(
    accumulate: A,
    grad_out: Seq<T>,
    events: Seq<(usize, usize)>,
    states: Seq<Seq<T>>,
    i: usize,
    t: usize,
    next: Seq<T>,
)
    requires
        accum_trace(accumulate, grad_out, events, states),
        next == states.last().update(i as int, next[i as int]),
        call_ensures(accumulate, (states.last()[i as int], grad_out[t as int]), next[i as int]),
    ensures
        accum_trace(accumulate, grad_out, events.push((i, t)), states.push(next)),
{
    let ev = events.push((i, t));
    let st = states.push(next);
    assert forall|k: int| 0 <= k < ev.len() implies {
        let (i, t) = #[trigger] ev[k];
        &&& st[k + 1] == st[k].update(i as int, st[k + 1][i as int])
        &&& call_ensures(accumulate, (st[k][i as int], grad_out[t as int]), st[k + 1][i as int])
    } by {
        if k < events.len() {
            assert(ev[k] == events[k]);
            assert(st[k] == states[k]);
            assert(st[k + 1] == states[k + 1]);
        }
    }
}

/// Backward pass of choose: at each logical index `i`, in order, adds
/// `grad_out[i]` with `accumulate` into the gradient of the operand picked there,
/// the whole of it and nothing into the other: into `grad_lhs` where the
/// mask holds, into `grad_rhs` elsewhere. `grad_out` is contiguous.
pub fn choose_backward<T: Copy, A: Fn(T, T) -> T>(
    dims: &Vec<usize>,
    cond: &Vec<bool>,
    cond_strides: &Vec<usize>,
    grad_lhs: &mut Vec<T>,
    lhs_strides: &Vec<usize>,
    grad_rhs: &mut Vec<T>,
    rhs_strides: &Vec<usize>,
    grad_out: &Vec<T>,
    accumulate: A,
)
    requires
        product(dims@) <= usize::MAX,
        reads_within(dims@, cond_strides@, cond@.len() as int),
        reads_within(dims@, lhs_strides@, old(grad_lhs)@.len() as int),
        reads_within(dims@, rhs_strides@, old(grad_rhs)@.len() as int),
        grad_out@.len() == product(dims@),
        forall|g: T, go: T| call_requires(accumulate, (g, go)),
    ensures
        final(grad_lhs)@.len() == old(grad_lhs)@.len(),
        final(grad_rhs)@.len() == old(grad_rhs)@.len(),
        accumulated(
            accumulate,
            grad_out@,
            old(grad_lhs)@,
            choose_events(dims@, cond@, cond_strides@, lhs_strides@, true, product(dims@)),
            final(grad_lhs)@,
        ),
        accumulated(
            accumulate,
            grad_out@,
            old(grad_rhs)@,
            choose_events(dims@, cond@, cond_strides@, rhs_strides@, false, product(dims@)),
            final(grad_rhs)@,
        ),
{
    let n = numel(dims);
    let ghost gl0 = grad_lhs@;
    let ghost gr0 = grad_rhs@;
    let ghost mut sl: Seq<Seq<T>> = seq![gl0];
    let ghost mut sr: Seq<Seq<T>> = seq![gr0];
    let mut i: usize = 0;
    while i < n
        invariant
            n == product(dims@),
            reads_within(dims@, cond_strides@, cond@.len() as int),
            reads_within(dims@, lhs_strides@, grad_lhs@.len() as int),
            reads_within(dims@, rhs_strides@, grad_rhs@.len() as int),
            grad_lhs@.len() == gl0.len(),
            grad_rhs@.len() == gr0.len(),
            grad_out@.len() == n,
            forall|g: T, go: T| call_requires(accumulate, (g, go)),
            0 <= i <= n,
            accum_trace(accumulate, grad_out@, choose_events(dims@, cond@, cond_strides@, lhs_strides@, true, i as int), sl),
            sl[0] == gl0,
            sl.last() == grad_lhs@,
            accum_trace(accumulate, grad_out@, choose_events(dims@, cond@, cond_strides@, rhs_strides@, false, i as int), sr),
            sr[0] == gr0,
            sr.last() == grad_rhs@,
        decreases n - i,
    {
        let cond_len = cond.len();
        let gl_len = grad_lhs.len();
        let gr_len = grad_rhs.len();
        assert(strided(dims@, cond_strides@, i as int) < cond_len);
        assert(strided(dims@, lhs_strides@, i as int) < gl_len);
        assert(strided(dims@, rhs_strides@, i as int) < gr_len);
        let go = grad_out[i];
        if cond[strided_offset(dims, cond_strides, i)] {
            let o = strided_offset(dims, lhs_strides, i);
            let v = accumulate(grad_lhs[o], go);
            grad_lhs.set(o, v);
            proof {
                lemma_accum_step(accumulate, grad_out@, choose_events(dims@, cond@, cond_strides@, lhs_strides@, true, i as int), sl, o, i, grad_lhs@);
                sl = sl.push(grad_lhs@);
            }
        } else {
            let o = strided_offset(dims, rhs_strides, i);
            let v = accumulate(grad_rhs[o], go);
            grad_rhs.set(o, v);
            proof {
                lemma_accum_step(accumulate, grad_out@, choose_events(dims@, cond@, cond_strides@, rhs_strides@, false, i as int), sr, o, i, grad_rhs@);
                sr = sr.push(grad_rhs@);
            }
        }
        i = i + 1;
    }
}

fn checked_strided_offset(dims: &Vec<usize>, strides: &Vec<usize>, i: usize) -> (r: Option<usize>)
    requires
        strides@.len() == dims@.len(),
        i < product(dims@),
    ensures
        r is Some <==> strided(dims@, strides@, i as int) <= usize::MAX,
        r is Some ==> r->Some_0 == strided(dims@, strides@, i as int),
{
    proof {
        lemma_positive_extents(dims@);
    }
    let mut acc: usize = 0;
    let mut q: usize = i;
    let mut k: usize = dims.len();
    while k > 0
        invariant
            strides@.len() == dims@.len(),
            0 <= k <= dims@.len(),
            forall|j: int| 0 <= j < dims@.len() ==> dims@[j] > 0,
            acc + offset_of(dims@, strides@, q as int, k as int) == strided(dims@, strides@, i as int),
        decreases k,
    {
        let d = dims[k - 1];
        proof {
            lemma_offset_nonneg(dims@, strides@, q as int / d as int, k - 1);
            vstd::arithmetic::div_mod::lemma_mod_bound(q as int, d as int);
            vstd::arithmetic::mul::lemma_mul_nonnegative(q as int % d as int, strides@[k - 1] as int);
        }
        let term = match (q % d).checked_mul(strides[k - 1]) {
            Some(v) => v,
            None => return None,
        };
        acc = match acc.checked_add(term) {
            Some(v) => v,
            None => return None,
        };
        q = q / d;
        k = k - 1;
    }
    Some(acc)
}

/// Whether every logical index of the shape reaches an offset below `len`.
pub fn check_reads_within(dims: &Vec<usize>, strides: &Vec<usize>, len: usize) -> (r: bool)
    requires
        product(dims@) <= usize::MAX,
    ensures
        r == reads_within(dims@, strides@, len as int),
{
    if strides.len() != dims.len() {
        return false;
    }
    let n = numel(dims);
    let mut i: usize = 0;
    while i < n
        invariant
            n == product(dims@),
            strides@.len() == dims@.len(),
            0 <= i <= n,
            forall|j: int| 0 <= j < i ==> #[trigger] strided(dims@, strides@, j) < len,
        decreases n - i,
    {
        match checked_strided_offset(dims, strides, i) {
            Some(o) => {
                if o >= len {
                    return false;
                }
            },
            None => {
                return false;
            },
        }
        i = i + 1;
    }
    true
}

} // verus!
