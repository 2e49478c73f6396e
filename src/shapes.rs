//! Shape and stride algebra: row-major strides, element counts, and the
//! layouts used when walking a reduction.
use vstd::prelude::*;

verus! {

/// Pads the strides of a rank-3 tensor to rank 4 by putting a zero-stride
/// batch axis in front; rank-4 strides are returned as they are.
pub fn make_4d(num_dims: usize, strides: &[usize]) -> (r: [usize; 4])
    requires
        num_dims == 3 || num_dims == 4,
        strides@.len() == num_dims,
    ensures
        num_dims == 3 ==> r@ == seq![0usize, strides@[0], strides@[1], strides@[2]],
        num_dims == 4 ==> r@ == strides@,
{
    if num_dims == 3 {
        let r = [0, strides[0], strides[1], strides[2]];
        assert(r@ =~= seq![0usize, strides@[0], strides@[1], strides@[2]]);
        r
    } else {
        let r = [strides[0], strides[1], strides[2], strides[3]];
        assert(r@ =~= strides@);
        r
    }
}


/// Product of a sequence of extents.
pub open spec fn product(s: Seq<usize>) -> int
    decreases s.len(),
{
    if s.len() == 0 {
        1
    } else {
        product(s.drop_last()) * s.last()
    }
}

/// Every running product of `s`, taken from the front, fits in a `usize`.
pub open spec fn product_fits(s: Seq<usize>) -> bool {
    forall|k: int| 0 <= k <= s.len() ==> #[trigger] product(s.take(k)) <= usize::MAX
}

pub proof fn lemma_product_nonneg(s: Seq<usize>)
    ensures
        product(s) >= 0,
    decreases s.len(),
{
    if s.len() > 0 {
        lemma_product_nonneg(s.drop_last());
        vstd::arithmetic::mul::lemma_mul_nonnegative(product(s.drop_last()), s.last() as int);
    }
}

/// Splitting a sequence splits its product.
pub proof fn lemma_product_append(a: Seq<usize>, b: Seq<usize>)
    ensures
        product(a + b) == product(a) * product(b),
    decreases b.len(),
{
    if b.len() == 0 {
        assert(a + b =~= a);
    } else {
        lemma_product_append(a, b.drop_last());
        assert((a + b).drop_last() =~= a + b.drop_last());
        vstd::arithmetic::mul::lemma_mul_is_associative(
            product(a),
            product(b.drop_last()),
            b.last() as int,
        );
    }
}

/// The product of a sequence with one extent put in front.
pub proof fn lemma_product_prepend(x: usize, s: Seq<usize>)
    ensures
        product(seq![x] + s) == x * product(s),
{
    lemma_product_append(seq![x], s);
    assert(seq![x].drop_last() =~= Seq::<usize>::empty());
    assert(product(Seq::<usize>::empty()) == 1);
    assert(product(seq![x]) == 1 * x);
}

/// Multiplies the extents, or returns `None` when a running product
/// leaves `usize`.
pub fn checked_product(v: &Vec<usize>) -> (r: Option<usize>)
    ensures
        r is Some <==> product_fits(v@),
        r is Some ==> r->Some_0 == product(v@),
{
    let mut acc: usize = 1;
    let mut i: usize = 0;
    assert(v@.take(0) =~= Seq::<usize>::empty());
    while i < v.len()
        invariant
            0 <= i <= v.len(),
            acc == product(v@.take(i as int)),
            forall|k: int| 0 <= k <= i ==> #[trigger] product(v@.take(k)) <= usize::MAX,
        decreases v.len() - i,
    {
        assert(v@.take(i + 1).drop_last() =~= v@.take(i as int));
        match acc.checked_mul(v[i]) {
            Some(next) => {
                acc = next;
                i = i + 1;
            },
            None => {
                assert(!(product(v@.take(i + 1)) <= usize::MAX));
                return None;
            },
        }
    }
    assert(v@.take(v.len() as int) =~= v@);
    Some(acc)
}

/// Number of elements of a shape with the given extents, or `None` when the
/// count does not fit in a `usize`.
pub fn num_elements(dims: &Vec<usize>) -> (r: Option<usize>)
    ensures
        r is Some <==> product_fits(dims@),
        r is Some ==> r->Some_0 == product(dims@),
{
    checked_product(dims)
}

/// Row-major stride of axis `i`: the product of the extents after it.
pub open spec fn row_major_stride(dims: Seq<usize>, i: int) -> int {
    product(dims.subrange(i + 1, dims.len() as int))
}

/// Every stride of the row-major layout fits in a `usize`.
pub open spec fn row_major_fits(dims: Seq<usize>) -> bool {
    forall|i: int| 0 <= i < dims.len() ==> #[trigger] row_major_stride(dims, i) <= usize::MAX
}

/// The default contiguous (row-major, unit innermost stride) strides of a
/// shape, or `None` when one of them does not fit in a `usize`.
pub fn default_strides(dims: &Vec<usize>) -> (r: Option<Vec<usize>>)
    ensures
        r is Some <==> row_major_fits(dims@),
        r is Some ==> r->Some_0@.len() == dims@.len() && forall|i: int|
            0 <= i < dims@.len() ==> r->Some_0@[i] == #[trigger] row_major_stride(dims@, i),
{
    let n = dims.len();
    let mut strides: Vec<usize> = Vec::new();
    let mut k: usize = 0;
    while k < n
        invariant
            n == dims@.len(),
            0 <= k <= n,
            strides@.len() == k,
        decreases n - k,
    {
        strides.push(1);
        k = k + 1;
    }
    if n == 0 {
        return Some(strides);
    }
    let mut i: usize = n - 1;
    assert(dims@.subrange(n as int, n as int) =~= Seq::<usize>::empty());
    strides.set(i, 1);
    while i > 0
        invariant
            n == dims@.len(),
            0 <= i < n,
            strides@.len() == n,
            forall|j: int| i <= j < n ==> strides@[j] == #[trigger] row_major_stride(dims@, j),
        decreases i,
    {
        let prev = strides[i];
        proof {
            let tail = dims@.subrange(i + 1, n as int);
            assert(prev == row_major_stride(dims@, i as int));
            assert(prev == product(tail));
            assert(row_major_stride(dims@, i - 1) == product(dims@.subrange(i as int, n as int)));
            assert(dims@.subrange(i as int, n as int) =~= seq![dims@[i as int]] + tail);
            lemma_product_prepend(dims@[i as int], tail);
            vstd::arithmetic::mul::lemma_mul_is_commutative(dims@[i as int] as int, prev as int);
            assert(row_major_stride(dims@, i - 1) == prev * dims@[i as int]);
        }
        match prev.checked_mul(dims[i]) {
            Some(s) => {
                i = i - 1;
                strides.set(i, s);
            },
            None => {
                assert(!(row_major_stride(dims@, i - 1) <= usize::MAX));
                return None;
            },
        }
    }
    Some(strides)
}

/// The entries of `vals` at the axes `i < n` that are reduced (`want`) or
/// kept (`!want`) and that are backed by memory (nonzero stride), in axis order.
pub open spec fn select_axes(
    vals: Seq<usize>,
    strides: Seq<usize>,
    reduced: Seq<bool>,
    want: bool,
    n: int,
) -> Seq<usize>
    decreases n,
{
    if n <= 0 {
        Seq::empty()
    } else {
        let rest = select_axes(vals, strides, reduced, want, n - 1);
        if reduced[n - 1] == want && strides[n - 1] != 0 {
            rest.push(vals[n - 1])
        } else {
            rest
        }
    }
}

/// The extents of the axes `i < n` that are backed by memory (nonzero stride).
pub open spec fn physical_dims(dims: Seq<usize>, strides: Seq<usize>, n: int) -> Seq<usize>
    decreases n,
{
    if n <= 0 {
        Seq::empty()
    } else {
        let rest = physical_dims(dims, strides, n - 1);
        if strides[n - 1] != 0 {
            rest.push(dims[n - 1])
        } else {
            rest
        }
    }
}

/// A layout over a reduction: extents, strides and a reduced flag per axis.
pub open spec fn reduction_layout(dims: Seq<usize>, strides: Seq<usize>, reduced: Seq<bool>) -> bool {
    dims.len() == strides.len() && strides.len() == reduced.len()
}

fn select_into(
    vals: &Vec<usize>,
    strides: &Vec<usize>,
    reduced: &Vec<bool>,
    want: bool,
    out: &mut Vec<usize>,
)
    requires
        vals@.len() == strides@.len(),
        strides@.len() == reduced@.len(),
    ensures
        final(out)@ == old(out)@ + select_axes(vals@, strides@, reduced@, want, vals@.len() as int),
{
    let n = vals.len();
    let ghost start = out@;
    let mut i: usize = 0;
    assert(start + select_axes(vals@, strides@, reduced@, want, 0) =~= start);
    while i < n
        invariant
            n == vals@.len(),
            vals@.len() == strides@.len(),
            strides@.len() == reduced@.len(),
            0 <= i <= n,
            out@ == start + select_axes(vals@, strides@, reduced@, want, i as int),
        decreases n - i,
    {
        if reduced[i] == want && strides[i] != 0 {
            out.push(vals[i]);
        }
        proof {
            let prev = select_axes(vals@, strides@, reduced@, want, i as int);
            if reduced@[i as int] == want && strides@[i as int] != 0 {
                assert(start + prev.push(vals@[i as int]) =~= (start + prev).push(vals@[i as int]));
            }
        }
        i = i + 1;
    }
}

/// Orders the axes of a layout for walking a reduction: the kept axes first,
/// then the reduced ones, each group in axis order, leaving out broadcast
/// (zero-stride) axes. Returns the extents and strides in that order.
pub fn permute_for_reductions(
    dims: &Vec<usize>,
    strides: &Vec<usize>,
    reduced: &Vec<bool>,
) -> (r: (Vec<usize>, Vec<usize>))
    requires
        reduction_layout(dims@, strides@, reduced@),
    ensures
        r.0@ == select_axes(dims@, strides@, reduced@, false, dims@.len() as int) + select_axes(
            dims@,
            strides@,
            reduced@,
            true,
            dims@.len() as int,
        ),
        r.1@ == select_axes(strides@, strides@, reduced@, false, dims@.len() as int) + select_axes(
            strides@,
            strides@,
            reduced@,
            true,
            dims@.len() as int,
        ),
{
    let mut out_dims: Vec<usize> = Vec::new();
    let mut out_strides: Vec<usize> = Vec::new();
    select_into(dims, strides, reduced, false, &mut out_dims);
    select_into(dims, strides, reduced, true, &mut out_dims);
    select_into(strides, strides, reduced, false, &mut out_strides);
    select_into(strides, strides, reduced, true, &mut out_strides);
    assert(out_dims@ =~= select_axes(dims@, strides@, reduced@, false, dims@.len() as int)
        + select_axes(dims@, strides@, reduced@, true, dims@.len() as int));
    assert(out_strides@ =~= select_axes(strides@, strides@, reduced@, false, dims@.len() as int)
        + select_axes(strides@, strides@, reduced@, true, dims@.len() as int));
    (out_dims, out_strides)
}

/// How many physical input elements fold into one output slot of a
/// reduction: the product of the reduced extents that are backed by memory.
/// `None` when that product does not fit in a `usize`.
pub fn reduction_elems_per_thread(
    dims: &Vec<usize>,
    strides: &Vec<usize>,
    reduced: &Vec<bool>,
) -> (r: Option<usize>)
    requires
        reduction_layout(dims@, strides@, reduced@),
    ensures
        r is Some <==> product_fits(select_axes(dims@, strides@, reduced@, true, dims@.len() as int)),
        r is Some ==> r->Some_0 == product(
            select_axes(dims@, strides@, reduced@, true, dims@.len() as int),
        ),
{
    let mut sel: Vec<usize> = Vec::new();
    select_into(dims, strides, reduced, true, &mut sel);
    assert(sel@ =~= select_axes(dims@, strides@, reduced@, true, dims@.len() as int));
    checked_product(&sel)
}

/// How many physical elements the output of a reduction holds: the product of
/// the kept extents that are backed by memory. `None` when that product does
/// not fit in a `usize`.
pub fn reduction_output_numel(
    dims: &Vec<usize>,
    strides: &Vec<usize>,
    reduced: &Vec<bool>,
) -> (r: Option<usize>)
    requires
        reduction_layout(dims@, strides@, reduced@),
    ensures
        r is Some <==> product_fits(select_axes(dims@, strides@, reduced@, false, dims@.len() as int)),
        r is Some ==> r->Some_0 == product(
            select_axes(dims@, strides@, reduced@, false, dims@.len() as int),
        ),
{
    let mut sel: Vec<usize> = Vec::new();
    select_into(dims, strides, reduced, false, &mut sel);
    assert(sel@ =~= select_axes(dims@, strides@, reduced@, false, dims@.len() as int));
    checked_product(&sel)
}

/// A reduction splits the physical elements of its input evenly: the output's
/// physical element count times the elements folded per output slot is the
/// input's physical element count.
pub proof fn lemma_reduction_partitions_input(
    dims: Seq<usize>,
    strides: Seq<usize>,
    reduced: Seq<bool>,
    n: int,
)
    requires
        reduction_layout(dims, strides, reduced),
        0 <= n <= dims.len(),
    ensures
        product(select_axes(dims, strides, reduced, false, n)) * product(
            select_axes(dims, strides, reduced, true, n),
        ) == product(physical_dims(dims, strides, n)),
    decreases n,
{
    if n > 0 {
        lemma_reduction_partitions_input(dims, strides, reduced, n - 1);
        let a = product(select_axes(dims, strides, reduced, false, n - 1));
        let b = product(select_axes(dims, strides, reduced, true, n - 1));
        let d = dims[n - 1] as int;
        if strides[n - 1] != 0 {
            assert(select_axes(dims, strides, reduced, reduced[n - 1], n).drop_last() =~= select_axes(
                dims,
                strides,
                reduced,
                reduced[n - 1],
                n - 1,
            ));
            assert(physical_dims(dims, strides, n).drop_last() =~= physical_dims(dims, strides, n - 1));
            if reduced[n - 1] {
                vstd::arithmetic::mul::lemma_mul_is_associative(a, b, d);
            } else {
                vstd::arithmetic::mul::lemma_mul_is_associative(a, d, b);
                vstd::arithmetic::mul::lemma_mul_is_commutative(d, b);
                vstd::arithmetic::mul::lemma_mul_is_associative(a, b, d);
            }
        }
    }
}

/// Number of kept (not reduced) axes among the first `k`.
pub open spec fn kept_before(reduced: Seq<bool>, k: int) -> int
    decreases k,
{
    if k <= 0 {
        0
    } else {
        kept_before(reduced, k - 1) + if reduced[k - 1] {
            0int
        } else {
            1int
        }
    }
}

/// Counts of kept axes grow with the prefix and never pass its length.
pub proof fn lemma_kept_before_bounds(reduced: Seq<bool>, k: int)
    requires
        0 <= k <= reduced.len(),
    ensures
        0 <= kept_before(reduced, k) <= k,
        forall|j: int| 0 <= j <= k ==> #[trigger] kept_before(reduced, j) <= kept_before(reduced, k),
    decreases k,
{
    if k > 0 {
        lemma_kept_before_bounds(reduced, k - 1);
    }
}

/// Strides that read a tensor of the kept axes (strides `dst_strides`)
/// under the larger shape it was reduced from: a zero stride on each reduced
/// axis, so every index along it reaches the same element, and the kept
/// axes' own strides, in order, elsewhere.
pub fn broadcast_strides(reduced: &Vec<bool>, dst_strides: &Vec<usize>) -> (r: Vec<usize>)
    requires
        dst_strides@.len() == kept_before(reduced@, reduced@.len() as int),
    ensures
        r@.len() == reduced@.len(),
        forall|k: int|
            0 <= k < reduced@.len() ==> #[trigger] r@[k] == if reduced@[k] {
                0
            } else {
                dst_strides@[kept_before(reduced@, k)]
            },
{
    let mut r: Vec<usize> = Vec::new();
    let mut j: usize = 0;
    let mut k: usize = 0;
    let dl = dst_strides.len();
    proof {
        lemma_kept_before_bounds(reduced@, reduced@.len() as int);
    }
    while k < reduced.len()
        invariant
            0 <= k <= reduced@.len(),
            j == kept_before(reduced@, k as int),
            dl == dst_strides@.len(),
            dst_strides@.len() == kept_before(reduced@, reduced@.len() as int),
            forall|i: int| 0 <= i <= reduced@.len() ==> #[trigger] kept_before(reduced@, i) <= kept_before(reduced@, reduced@.len() as int),
            r@.len() == k,
            forall|i: int|
                0 <= i < k ==> #[trigger] r@[i] == if reduced@[i] {
                    0
                } else {
                    dst_strides@[kept_before(reduced@, i)]
                },
        decreases reduced.len() - k,
    {
        if reduced[k] {
            r.push(0);
        } else {
            assert(kept_before(reduced@, k + 1) == j + 1);
            r.push(dst_strides[j]);
            j = j + 1;
        }
        k = k + 1;
    }
    r
}

} // verus!
