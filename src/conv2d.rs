//! Two-dimensional convolution as patch extraction ("unfold") followed by a
//! batched matrix multiply: the descriptor, the shapes and strides of the
//! three batched products that forward and backward run, and their host
//! execution (unfolding the input and the output gradient, transposing the
//! filters per batch item, the batched product itself, and summing the
//! per-batch filter gradients).
use vstd::prelude::*;
use crate::pool2d::{axis_fits, check_fits4, fits4, in_coord, lemma_div_below, offset4, out_dim, pool_out_dim};
use crate::elementwise::{accum_trace, accumulated, lemma_accum_step};
use crate::shapes::{checked_product, lemma_product_append, lemma_product_prepend, product, product_fits};

verus! {

/// Static configuration of a convolution of a `[batch, chan_in, h_in, w_in]`
/// input with `[chan_out, chan_in, kernel, kernel]` filters.
#[derive(Clone, Copy, Debug, PartialEq, Eq)]
pub struct Conv2DOp {
    pub stride: usize,
    pub padding: usize,
    pub kernel: usize,
    pub batch: usize,
    pub chan_in: usize,
    pub chan_out: usize,
    pub h_in: usize,
    pub h_out: usize,
    pub w_in: usize,
    pub w_out: usize,
}

/// One batched matrix product `out[i] = lhs[i] * rhs[i]` (plus `out[i]`
/// where `accumulate`) over `batch` items, with `lhs[i]` of `m x k`,
/// `rhs[i]` of `k x n` and `out[i]` of `m x n`. Each stride triple gives the
/// step between batch items, rows and columns of its operand.
#[derive(Clone, Copy, Debug, PartialEq, Eq)]
pub struct GemmPlan {
    pub batch: usize,
    pub m: usize,
    pub k: usize,
    pub n: usize,
    pub lhs_strides: [usize; 3],
    pub rhs_strides: [usize; 3],
    pub out_strides: [usize; 3],
    pub accumulate: bool,
}

impl Conv2DOp {
    /// The configuration of a convolution, with the output extents that the
    /// window geometry gives; `None` where the geometry does not fit.
    pub fn new(
        kernel: usize,
        stride: usize,
        padding: usize,
        batch: usize,
        chan_in: usize,
        chan_out: usize,
        h_in: usize,
        w_in: usize,
    ) -> (r: Option<Conv2DOp>)
        ensures
            r is Some <==> axis_fits(h_in as int, kernel as int, stride as int, padding as int)
                && axis_fits(w_in as int, kernel as int, stride as int, padding as int),
            r is Some ==> ({
                let op = r->Some_0;
                &&& op.kernel == kernel && op.stride == stride && op.padding == padding
                &&& op.batch == batch && op.chan_in == chan_in && op.chan_out == chan_out
                &&& op.h_in == h_in && op.w_in == w_in
                &&& op.h_out == out_dim(h_in as int, kernel as int, stride as int, padding as int)
                &&& op.w_out == out_dim(w_in as int, kernel as int, stride as int, padding as int)
            }),
    {
        let h_out = match pool_out_dim(h_in, kernel, stride, padding) {
            Some(h) => h,
            None => return None,
        };
        let w_out = match pool_out_dim(w_in, kernel, stride, padding) {
            Some(w) => w,
            None => return None,
        };
        Some(
            Conv2DOp { stride, padding, kernel, batch, chan_in, chan_out, h_in, h_out, w_in, w_out },
        )
    }

    /// Extents whose product is the row count `k` of the forward patches:
    /// `chan_in * kernel * kernel`.
    pub open spec fn patch_rows(self) -> Seq<usize> {
        seq![self.chan_in, self.kernel, self.kernel]
    }

    /// Extents whose product is the row count of the backward patches:
    /// `chan_out * kernel * kernel`.
    pub open spec fn filter_cols(self) -> Seq<usize> {
        seq![self.chan_out, self.kernel, self.kernel]
    }

    /// Extents of the forward patches buffer `[batch, chan_in, kernel, kernel, h_out, w_out]`.
    pub open spec fn forward_patches(self) -> Seq<usize> {
        seq![self.batch, self.chan_in, self.kernel, self.kernel, self.h_out, self.w_out]
    }

    /// Extents of the backward patches buffer `[batch, chan_out, kernel, kernel, h_in, w_in]`.
    pub open spec fn backward_patches(self) -> Seq<usize> {
        seq![self.batch, self.chan_out, self.kernel, self.kernel, self.h_in, self.w_in]
    }

    /// Extents of the per-batch filter buffers `[batch, chan_in, chan_out, kernel, kernel]`.
    pub open spec fn batched_filters(self) -> Seq<usize> {
        seq![self.batch, self.chan_in, self.chan_out, self.kernel, self.kernel]
    }

    /// Every size the forward product needs fits in a `usize`.
    pub open spec fn forward_fits(self) -> bool {
        &&& product_fits(self.forward_patches())
        &&& product_fits(self.patch_rows())
        &&& product_fits(seq![self.h_out, self.w_out])
        &&& product_fits(seq![self.chan_out, self.h_out, self.w_out])
        &&& product_fits(seq![self.chan_in, self.kernel, self.kernel, self.h_out, self.w_out])
    }

    /// Every size the backward products need fits in a `usize`.
    pub open spec fn backward_fits(self) -> bool {
        &&& product_fits(self.backward_patches())
        &&& product_fits(self.batched_filters())
        &&& product_fits(self.filter_cols())
        &&& product_fits(seq![self.h_in, self.w_in])
        &&& product_fits(seq![self.chan_in, self.chan_out, self.kernel, self.kernel])
        &&& product_fits(seq![self.chan_out, self.kernel, self.kernel, self.h_in, self.w_in])
        &&& product_fits(seq![self.chan_in, self.h_in, self.w_in])
    }
}

proof fn lemma_product_pair(a: usize, b: usize)
    ensures
        product(seq![a, b]) == a * b,
{
    lemma_product_prepend(a, seq![b]);
    assert(seq![a] + seq![b] =~= seq![a, b]);
    lemma_product_prepend(b, Seq::empty());
    assert(seq![b] + Seq::<usize>::empty() =~= seq![b]);
}

fn prod(v: Vec<usize>) -> (r: Option<usize>)
    ensures
        r is Some <==> product_fits(v@),
        r is Some ==> r->Some_0 == product(v@),
{
    checked_product(&v)
}

/// Forward product: `(O, C*K*K) x (B, C*K*K, OH*OW) = (B, O, OH*OW)`, with
/// the filters shared by every batch item (batch stride zero), overwriting
/// the output. Also returns the length of the patches buffer. `None` where
/// a size does not fit in a `usize`.
pub fn forward_gemm(op: &Conv2DOp) -> (r: Option<(GemmPlan, usize)>)
    ensures
        r is Some <==> op.forward_fits(),
        r is Some ==> ({
            let (g, patches) = r->Some_0;
            let k = product(op.patch_rows());
            let n = op.h_out * op.w_out;
            &&& patches == product(op.forward_patches())
            &&& k * n <= usize::MAX && op.chan_out * n <= usize::MAX
            &&& g.batch == op.batch && g.m == op.chan_out && g.k == k && g.n == n
            &&& g.lhs_strides@ == seq![0usize, k as usize, 1usize]
            &&& g.rhs_strides@ == seq![(k * n) as usize, n as usize, 1usize]
            &&& g.out_strides@ == seq![(op.chan_out * n) as usize, n as usize, 1usize]
            &&& !g.accumulate
        }),
{
    let patches = prod(vec![op.batch, op.chan_in, op.kernel, op.kernel, op.h_out, op.w_out]);
    let k = prod(vec![op.chan_in, op.kernel, op.kernel]);
    let n = prod(vec![op.h_out, op.w_out]);
    let mn = prod(vec![op.chan_out, op.h_out, op.w_out]);
    let kn = prod(vec![op.chan_in, op.kernel, op.kernel, op.h_out, op.w_out]);
    match (patches, k, n, mn, kn) {
        (Some(patches), Some(k), Some(n), Some(mn), Some(kn)) => {
            proof {
                let hw = seq![op.h_out, op.w_out];
                lemma_product_append(op.patch_rows(), hw);
                assert(op.patch_rows() + hw =~= seq![op.chan_in, op.kernel, op.kernel, op.h_out, op.w_out]);
                lemma_product_prepend(op.chan_out, hw);
                assert(seq![op.chan_out] + hw =~= seq![op.chan_out, op.h_out, op.w_out]);
                lemma_product_pair(op.h_out, op.w_out);
            }
            let g = GemmPlan {
                batch: op.batch,
                m: op.chan_out,
                k,
                n,
                lhs_strides: [0, k, 1],
                rhs_strides: [kn, n, 1],
                out_strides: [mn, n, 1],
                accumulate: false,
            };
            assert(g.lhs_strides@ =~= seq![0usize, k as usize, 1usize]);
            assert(g.rhs_strides@ =~= seq![kn, n, 1usize]);
            assert(g.out_strides@ =~= seq![mn, n, 1usize]);
            Some((g, patches))
        },
        _ => None,
    }
}

/// The two backward products, each adding into its output.
///
/// The data gradient: `(B, C, O*K*K) x (B, O*K*K, H*W) += (B, C, H*W)`, from
/// the per-batch transposed filters and the patches of the output gradient.
/// The weight gradient: `(B, C, H*W) x (B, H*W, O*K*K) += (B, C, O*K*K)`,
/// from the input and the transposed patches, one filter gradient per batch
/// item, later summed over the batch. Also returns the lengths of the
/// patches buffer and of the per-batch filter buffers. `None` where a size
/// does not fit in a `usize`.
pub fn backward_gemms(op: &Conv2DOp) -> (r: Option<(GemmPlan, GemmPlan, usize, usize)>)
    ensures
        r is Some <==> op.backward_fits(),
        r is Some ==> ({
            let (data, weight, patches, filters) = r->Some_0;
            let c = op.chan_in as int;
            let k = product(op.filter_cols());
            let n = op.h_in * op.w_in;
            &&& patches == product(op.backward_patches())
            &&& filters == product(op.batched_filters())
            &&& data.batch == op.batch && data.m == c && data.k == k && data.n == n
            &&& data.lhs_strides@ == seq![(c * k) as usize, k as usize, 1usize]
            &&& data.rhs_strides@ == seq![(k * n) as usize, n as usize, 1usize]
            &&& data.out_strides@ == seq![(c * n) as usize, n as usize, 1usize]
            &&& data.accumulate
            &&& weight.batch == op.batch && weight.m == c && weight.k == n && weight.n == k
            &&& weight.lhs_strides@ == seq![(c * n) as usize, n as usize, 1usize]
            &&& weight.rhs_strides@ == seq![(n * k) as usize, 1usize, n as usize]
            &&& weight.out_strides@ == seq![(c * k) as usize, k as usize, 1usize]
            &&& weight.accumulate
        }),
{
    let patches = prod(vec![op.batch, op.chan_out, op.kernel, op.kernel, op.h_in, op.w_in]);
    let filters = prod(vec![op.batch, op.chan_in, op.chan_out, op.kernel, op.kernel]);
    let k = prod(vec![op.chan_out, op.kernel, op.kernel]);
    let n = prod(vec![op.h_in, op.w_in]);
    let ck = prod(vec![op.chan_in, op.chan_out, op.kernel, op.kernel]);
    let kn = prod(vec![op.chan_out, op.kernel, op.kernel, op.h_in, op.w_in]);
    let cn = prod(vec![op.chan_in, op.h_in, op.w_in]);
    match (patches, filters, k, n, ck, kn, cn) {
        (Some(patches), Some(filters), Some(k), Some(n), Some(ck), Some(kn), Some(cn)) => {
            proof {
                let hw = seq![op.h_in, op.w_in];
                lemma_product_pair(op.h_in, op.w_in);
                lemma_product_append(op.filter_cols(), hw);
                assert(op.filter_cols() + hw =~= seq![op.chan_out, op.kernel, op.kernel, op.h_in, op.w_in]);
                lemma_product_prepend(op.chan_in, hw);
                assert(seq![op.chan_in] + hw =~= seq![op.chan_in, op.h_in, op.w_in]);
                lemma_product_prepend(op.chan_in, op.filter_cols());
                assert(seq![op.chan_in] + op.filter_cols() =~= seq![op.chan_in, op.chan_out, op.kernel, op.kernel]);
                vstd::arithmetic::mul::lemma_mul_is_commutative(k as int, n as int);
            }
            let data = GemmPlan {
                batch: op.batch,
                m: op.chan_in,
                k,
                n,
                lhs_strides: [ck, k, 1],
                rhs_strides: [kn, n, 1],
                out_strides: [cn, n, 1],
                accumulate: true,
            };
            let weight = GemmPlan {
                batch: op.batch,
                m: op.chan_in,
                k: n,
                n: k,
                lhs_strides: [cn, n, 1],
                rhs_strides: [kn, 1, n],
                out_strides: [ck, k, 1],
                accumulate: true,
            };
            assert(data.lhs_strides@ =~= seq![ck, k, 1usize]);
            assert(data.rhs_strides@ =~= seq![kn, n, 1usize]);
            assert(data.out_strides@ =~= seq![cn, n, 1usize]);
            assert(weight.lhs_strides@ =~= seq![cn, n, 1usize]);
            assert(weight.rhs_strides@ =~= seq![kn, 1usize, n]);
            assert(weight.out_strides@ =~= seq![ck, k, 1usize]);
            Some((data, weight, patches, filters))
        },
        _ => None,
    }
}

impl GemmPlan {
    /// Offset of `lhs[b][i][p]`.
    pub open spec fn lhs_at(self, b: int, i: int, p: int) -> int {
        b * self.lhs_strides@[0] + i * self.lhs_strides@[1] + p * self.lhs_strides@[2]
    }

    /// Offset of `rhs[b][p][j]`.
    pub open spec fn rhs_at(self, b: int, p: int, j: int) -> int {
        b * self.rhs_strides@[0] + p * self.rhs_strides@[1] + j * self.rhs_strides@[2]
    }

    /// Number of output elements, `batch * m * n`.
    pub open spec fn num_out(self) -> int {
        (self.batch * self.m) * self.n
    }

    /// Every operand index lands inside buffers of `lhs_len` and `rhs_len`
    /// elements, and the output is laid out contiguously as `[batch, m, n]`.
    pub open spec fn fits(self, lhs_len: int, rhs_len: int) -> bool {
        &&& self.out_strides@[0] == self.m * self.n
        &&& self.out_strides@[1] == self.n
        &&& self.out_strides@[2] == 1
        &&& forall|b: int, i: int, p: int|
            0 <= b < self.batch && 0 <= i < self.m && 0 <= p < self.k ==> #[trigger] self.lhs_at(b, i, p)
                < lhs_len
        &&& forall|b: int, p: int, j: int|
            0 <= b < self.batch && 0 <= p < self.k && 0 <= j < self.n ==> #[trigger] self.rhs_at(b, p, j)
                < rhs_len
    }

    /// Batch, row and column of output element `t`.
    pub open spec fn out_b(self, t: int) -> int {
        t / (self.n as int) / (self.m as int)
    }

    pub open spec fn out_i(self, t: int) -> int {
        (t / (self.n as int)) % (self.m as int)
    }

    pub open spec fn out_j(self, t: int) -> int {
        t % (self.n as int)
    }

    /// The `k` operand pairs `(lhs[b][i][p], rhs[b][p][j])` of output element `t`.
    pub open spec fn pairs<T>(self, lhs: Seq<T>, rhs: Seq<T>, t: int) -> Seq<(T, T)> {
        Seq::new(
            self.k as nat,
            |p: int|
                (
                    lhs[self.lhs_at(self.out_b(t), self.out_i(t), p)],
                    rhs[self.rhs_at(self.out_b(t), p, self.out_j(t))],
                ),
        )
    }
}

/// `accs` and `prods` trace a dot product of `pairs`: starting from `zero`,
/// each pair gives one call `mul_fn(x, y)` and one call `add_fn(acc, product)`.
pub open spec fn dot_trace<T, M: Fn(T, T) -> T, A: Fn(T, T) -> T>(
    mul_fn: M,
    add_fn: A,
    zero: T,
    pairs: Seq<(T, T)>,
    accs: Seq<T>,
    prods: Seq<T>,
) -> bool {
    &&& accs.len() == pairs.len() + 1
    &&& prods.len() == pairs.len()
    &&& accs[0] == zero
    &&& forall|p: int|
        0 <= p < pairs.len() ==> call_ensures(mul_fn, (pairs[p].0, pairs[p].1), #[trigger] prods[p])
            && call_ensures(add_fn, (accs[p], prods[p]), accs[p + 1])
}

/// `r` is what some dot product of `pairs` ends in.
pub open spec fn is_dot<T, M: Fn(T, T) -> T, A: Fn(T, T) -> T>(
    mul_fn: M,
    add_fn: A,
    zero: T,
    pairs: Seq<(T, T)>,
    r: T,
) -> bool {
    exists|accs: Seq<T>, prods: Seq<T>|
        #[trigger] dot_trace(mul_fn, add_fn, zero, pairs, accs, prods) && accs.last() == r
}

/// Output element `new` of a product: the dot product itself, or where the
/// plan accumulates, `add_fn(old, dot)`.
pub open spec fn gemm_entry<T, M: Fn(T, T) -> T, A: Fn(T, T) -> T>(
    accumulate: bool,
    mul_fn: M,
    add_fn: A,
    zero: T,
    pairs: Seq<(T, T)>,
    old_v: T,
    new_v: T,
) -> bool {
    if accumulate {
        exists|d: T| #[trigger] is_dot(mul_fn, add_fn, zero, pairs, d) && call_ensures(add_fn, (old_v, d), new_v)
    } else {
        is_dot(mul_fn, add_fn, zero, pairs, new_v)
    }
}

/// Runs the batched product of a plan: every output element `t` of the
/// contiguous `[batch, m, n]` output becomes the dot product, with `mul_fn` and
/// `add_fn` from `zero`, of its row of `lhs` and its column of `rhs`, added
/// with `add_fn` to the element already there where the plan accumulates.
pub fn batched_gemm<T: Copy, M: Fn(T, T) -> T, A: Fn(T, T) -> T>(
    g: &GemmPlan,
    lhs: &Vec<T>,
    rhs: &Vec<T>,
    out: &mut Vec<T>,
    zero: T,
    mul_fn: M,
    add_fn: A,
)
    requires
        g.num_out() <= usize::MAX,
        g.fits(lhs@.len() as int, rhs@.len() as int),
        old(out)@.len() == g.num_out(),
        forall|x: T, y: T| call_requires(mul_fn, (x, y)),
        forall|x: T, y: T| call_requires(add_fn, (x, y)),
    ensures
        final(out)@.len() == old(out)@.len(),
        forall|t: int|
            0 <= t < g.num_out() ==> gemm_entry(
                g.accumulate,
                mul_fn,
                add_fn,
                zero,
                g.pairs(lhs@, rhs@, t),
                old(out)@[t],
                #[trigger] final(out)@[t],
            ),
{
    let ghost out0 = out@;
    let total = out.len();
    let mut t: usize = 0;
    while t < total
        invariant
            total == g.num_out(),
            out@.len() == total,
            g.fits(lhs@.len() as int, rhs@.len() as int),
            forall|x: T, y: T| call_requires(mul_fn, (x, y)),
            forall|x: T, y: T| call_requires(add_fn, (x, y)),
            0 <= t <= total,
            forall|s: int| t <= s < total ==> out@[s] == out0[s],
            forall|s: int|
                0 <= s < t ==> gemm_entry(
                    g.accumulate,
                    mul_fn,
                    add_fn,
                    zero,
                    g.pairs(lhs@, rhs@, s),
                    out0[s],
                    #[trigger] out@[s],
                ),
        decreases total - t,
    {
        proof {
            let (bb, mm, nn) = (g.batch as int, g.m as int, g.n as int);
            if nn == 0 || mm == 0 {
                assert((bb * mm) * nn == 0) by (nonlinear_arith)
                    requires
                        nn == 0 || mm == 0,
                ;
            }
            lemma_div_below(t as int, bb * mm, nn);
            lemma_div_below(t as int / nn, bb, mm);
            vstd::arithmetic::div_mod::lemma_mod_bound(t as int, nn);
            vstd::arithmetic::div_mod::lemma_mod_bound(t as int / nn, mm);
        }
        let q = t / g.n;
        let b = q / g.m;
        let i = q % g.m;
        let j = t % g.n;
        let ghost pairs = g.pairs(lhs@, rhs@, t as int);
        let mut acc = zero;
        let ghost mut accs: Seq<T> = seq![zero];
        let ghost mut prods: Seq<T> = Seq::empty();
        let mut p: usize = 0;
        while p < g.k
            invariant
                g.fits(lhs@.len() as int, rhs@.len() as int),
                b < g.batch,
                i < g.m,
                j < g.n,
                b == g.out_b(t as int),
                i == g.out_i(t as int),
                j == g.out_j(t as int),
                pairs == g.pairs(lhs@, rhs@, t as int),
                forall|x: T, y: T| call_requires(mul_fn, (x, y)),
                forall|x: T, y: T| call_requires(add_fn, (x, y)),
                0 <= p <= g.k,
                dot_trace(mul_fn, add_fn, zero, pairs.take(p as int), accs, prods),
                accs.last() == acc,
            decreases g.k - p,
        {
            let ghost (bi, ii, ji, pi) = (b as int, i as int, j as int, p as int);
            let lhs_len = lhs.len();
            let rhs_len = rhs.len();
            proof {
                assert(g.lhs_at(bi, ii, pi) < lhs_len);
                assert(g.rhs_at(bi, pi, ji) < rhs_len);
                vstd::arithmetic::mul::lemma_mul_nonnegative(bi, g.lhs_strides@[0] as int);
                vstd::arithmetic::mul::lemma_mul_nonnegative(ii, g.lhs_strides@[1] as int);
                vstd::arithmetic::mul::lemma_mul_nonnegative(pi, g.lhs_strides@[2] as int);
                vstd::arithmetic::mul::lemma_mul_nonnegative(bi, g.rhs_strides@[0] as int);
                vstd::arithmetic::mul::lemma_mul_nonnegative(pi, g.rhs_strides@[1] as int);
                vstd::arithmetic::mul::lemma_mul_nonnegative(ji, g.rhs_strides@[2] as int);
            }
            let x = lhs[b * g.lhs_strides[0] + i * g.lhs_strides[1] + p * g.lhs_strides[2]];
            let y = rhs[b * g.rhs_strides[0] + p * g.rhs_strides[1] + j * g.rhs_strides[2]];
            let prod = mul_fn(x, y);
            let ghost prev = acc;
            acc = add_fn(acc, prod);
            proof {
                let old_accs = accs;
                let old_prods = prods;
                accs = accs.push(acc);
                prods = prods.push(prod);
                let pp = pairs.take(p + 1);
                assert(pp[p as int] == (x, y));
                assert forall|r: int| 0 <= r < pp.len() implies call_ensures(
                    mul_fn,
                    (pp[r].0, pp[r].1),
                    #[trigger] prods[r],
                ) && call_ensures(add_fn, (accs[r], prods[r]), accs[r + 1]) by {
                    if r < p {
                        assert(pp[r] == pairs.take(p as int)[r]);
                        assert(prods[r] == old_prods[r]);
                        assert(accs[r] == old_accs[r]);
                        assert(accs[r + 1] == old_accs[r + 1]);
                    }
                }
            }
            p = p + 1;
        }
        assert(pairs.take(g.k as int) =~= pairs);
        assert(dot_trace(mul_fn, add_fn, zero, pairs, accs, prods));
        let ghost before = out@;
        if g.accumulate {
            let v = add_fn(out[t], acc);
            out.set(t, v);
            proof {
                assert(is_dot(mul_fn, add_fn, zero, pairs, acc));
            }
        } else {
            out.set(t, acc);
        }
        proof {
            assert forall|s: int| 0 <= s < t implies gemm_entry(
                g.accumulate,
                mul_fn,
                add_fn,
                zero,
                g.pairs(lhs@, rhs@, s),
                out0[s],
                #[trigger] out@[s],
            ) by {
                assert(out@[s] == before[s]);
            }
        }
        t = t + 1;
    }
}

impl Conv2DOp {
    /// Window coordinates `o * stride + kernel` fit in a `usize`.
    pub open spec fn coords_fit(self) -> bool {
        self.h_out * self.stride + self.kernel <= usize::MAX && self.w_out * self.stride
            + self.kernel <= usize::MAX
    }

    /// Every multi-index of the input reaches an offset below `len` under `istr`.
    pub open spec fn layout_fits(self, istr: Seq<usize>, len: int) -> bool {
        &&& istr.len() == 4
        &&& forall|b: int, c: int, y: int, x: int|
            0 <= b < self.batch && 0 <= c < self.chan_in && 0 <= y < self.h_in && 0 <= x < self.w_in
                ==> #[trigger] offset4(istr, b, c, y, x) < len
    }

    /// The element of the forward patches `[batch, chan_in, kernel, kernel,
    /// h_out, w_out]` at offset `t`: the input element under kernel position
    /// `(k1, k2)` of output position `(oh, ow)` in channel `c`, or `zero` where
    /// that falls into the padding.
    pub open spec fn patch_value<T>(self, istr: Seq<usize>, inp: Seq<T>, zero: T, t: int) -> T {
        let kk = self.kernel as int;
        let n = self.h_out * self.w_out;
        let k = self.chan_in * kk * kk;
        let col = t % n;
        let row = (t / n) % k;
        let b = t / n / k;
        let c = row / (kk * kk);
        let k1 = (row / kk) % kk;
        let k2 = row % kk;
        let y = in_coord(col / (self.w_out as int), k1, self.stride as int, self.padding as int);
        let x = in_coord(col % (self.w_out as int), k2, self.stride as int, self.padding as int);
        if 0 <= y < self.h_in && 0 <= x < self.w_in {
            inp[offset4(istr, b, c, y, x)]
        } else {
            zero
        }
    }
}

/// Unfolds the input into the forward patches: a fresh buffer of
/// `batch * chan_in * kernel * kernel * h_out * w_out` elements laid out as
/// `[batch, chan_in, kernel, kernel, h_out, w_out]`, each the input element
/// its window position covers, or `zero` in the padding.
pub fn unfold_input<T: Copy>(op: &Conv2DOp, istr: &[usize; 4], inp: &Vec<T>, zero: T) -> (r: Vec<T>)
    requires
        op.forward_fits(),
        op.coords_fit(),
        op.layout_fits(istr@, inp@.len() as int),
    ensures
        r@.len() == product(op.forward_patches()),
        forall|t: int|
            0 <= t < r@.len() ==> #[trigger] r@[t] == op.patch_value(istr@, inp@, zero, t),
{
    let total = prod(vec![op.batch, op.chan_in, op.kernel, op.kernel, op.h_out, op.w_out]).unwrap();
    let k = prod(vec![op.chan_in, op.kernel, op.kernel]).unwrap();
    let n = prod(vec![op.h_out, op.w_out]).unwrap();
    proof {
        lemma_product_pair(op.h_out, op.w_out);
        let rows = op.patch_rows();
        let hw = seq![op.h_out, op.w_out];
        lemma_product_prepend(op.batch, rows + hw);
        lemma_product_append(rows, hw);
        assert(seq![op.batch] + (rows + hw) =~= op.forward_patches());
        vstd::arithmetic::mul::lemma_mul_is_associative(op.batch as int, k as int, n as int);
        assert(product(rows) == (op.chan_in * op.kernel) * op.kernel) by {
            assert(rows.drop_last() =~= seq![op.chan_in, op.kernel]);
            lemma_product_pair(op.chan_in, op.kernel);
        }
    }
    let mut r: Vec<T> = Vec::new();
    let mut t: usize = 0;
    while t < total
        invariant
            total == (op.batch * k) * n,
            total == product(op.forward_patches()),
            k == (op.chan_in * op.kernel) * op.kernel,
            n == op.h_out * op.w_out,
            op.coords_fit(),
            op.layout_fits(istr@, inp@.len() as int),
            0 <= t <= total,
            r@.len() == t,
            forall|s: int| 0 <= s < t ==> #[trigger] r@[s] == op.patch_value(istr@, inp@, zero, s),
        decreases total - t,
    {
        let kk = op.kernel;
        proof {
            let (bb, ki, ni) = (op.batch as int, k as int, n as int);
            if ni == 0 || ki == 0 {
                assert((bb * ki) * ni == 0) by (nonlinear_arith)
                    requires
                        ni == 0 || ki == 0,
                ;
            }
            assert(ni > 0 && ki > 0);
            assert(op.h_out > 0 && op.w_out > 0) by (nonlinear_arith)
                requires
                    ni == op.h_out * op.w_out,
                    ni > 0,
            ;
            lemma_div_below(t as int, bb * ki, ni);
            lemma_div_below(t as int / ni, bb, ki);
            vstd::arithmetic::div_mod::lemma_mod_bound(t as int, ni);
            vstd::arithmetic::div_mod::lemma_mod_bound(t as int / ni, ki);
            let row = (t as int / ni) % ki;
            let kki = kk as int;
            assert(kki > 0) by {
                if kki == 0 {
                    assert((op.chan_in * kki) * kki == 0) by (nonlinear_arith)
                        requires
                            kki == 0,
                    ;
                }
            }
            vstd::arithmetic::mul::lemma_mul_is_associative(op.chan_in as int, kki, kki);
            assert(kki * kki > 0) by (nonlinear_arith)
                requires
                    kki > 0,
            ;
            assert(kki * kki <= ki) by (nonlinear_arith)
                requires
                    ki == (op.chan_in * kki) * kki,
                    ki > 0,
                    kki > 0,
            ;
            lemma_div_below(row, op.chan_in as int, kki * kki);
            vstd::arithmetic::div_mod::lemma_mod_bound(row / kki, kki);
            vstd::arithmetic::div_mod::lemma_mod_bound(row, kki);
            let col = t as int % ni;
            lemma_div_below(col, op.h_out as int, op.w_out as int);
            vstd::arithmetic::div_mod::lemma_mod_bound(col, op.w_out as int);
        }
        let col = t % n;
        let row = (t / n) % k;
        let b = t / n / k;
        let c = row / (kk * kk);
        let k1 = (row / kk) % kk;
        let k2 = row % kk;
        let oh = col / op.w_out;
        let ow = col % op.w_out;
        proof {
            vstd::arithmetic::mul::lemma_mul_inequality(oh as int, op.h_out as int, op.stride as int);
            vstd::arithmetic::mul::lemma_mul_inequality(ow as int, op.w_out as int, op.stride as int);
        }
        let y = (oh * op.stride + k1).checked_sub(op.padding);
        let x = (ow * op.stride + k2).checked_sub(op.padding);
        let v = match (y, x) {
            (Some(y), Some(x)) => {
                if y < op.h_in && x < op.w_in {
                    let inp_len = inp.len();
                    proof {
                        assert(offset4(istr@, b as int, c as int, y as int, x as int) < inp_len);
                        vstd::arithmetic::mul::lemma_mul_nonnegative(b as int, istr@[0] as int);
                        vstd::arithmetic::mul::lemma_mul_nonnegative(c as int, istr@[1] as int);
                        vstd::arithmetic::mul::lemma_mul_nonnegative(y as int, istr@[2] as int);
                        vstd::arithmetic::mul::lemma_mul_nonnegative(x as int, istr@[3] as int);
                    }
                    inp[b * istr[0] + c * istr[1] + y * istr[2] + x * istr[3]]
                } else {
                    zero
                }
            },
            _ => zero,
        };
        r.push(v);
        t = t + 1;
    }
    r
}

/// A mixed-radix index `a * bb + b` with digits in range stays below `aa * bb`.
pub proof fn lemma_radix(a: int, aa: int, b: int, bb: int)
    requires
        0 <= a < aa,
        0 <= b < bb,
    ensures
        0 <= a * bb + b < aa * bb,
{
    assert(0 <= a * bb + b < aa * bb) by (nonlinear_arith)
        requires
            0 <= a < aa,
            0 <= b < bb,
    ;
}

impl Conv2DOp {
    /// Every multi-index of the output gradient reaches an offset below `len` under `gstr`.
    pub open spec fn grad_out_fits(self, gstr: Seq<usize>, len: int) -> bool {
        &&& gstr.len() == 4
        &&& forall|b: int, o: int, oh: int, ow: int|
            0 <= b < self.batch && 0 <= o < self.chan_out && 0 <= oh < self.h_out && 0 <= ow
                < self.w_out ==> #[trigger] offset4(gstr, b, o, oh, ow) < len
    }

    /// Output coordinate whose window puts kernel position `k` on input
    /// coordinate `y`, if there is one below `out_extent`.
    pub open spec fn source(self, y: int, k: int, out_extent: int) -> Option<int> {
        source_of(y, k, self.stride as int, self.padding as int, out_extent)
    }

    /// The element of the backward patches `[batch, chan_out, kernel, kernel,
    /// h_in, w_in]` at offset `t`: the output gradient at the output position
    /// whose window puts kernel position `(k1, k2)` on input position `(y, x)`,
    /// or `zero` where no window does.
    pub open spec fn grad_patch_value<T>(self, gstr: Seq<usize>, grad_out: Seq<T>, zero: T, t: int) -> T {
        let kk = self.kernel as int;
        let n = self.h_in * self.w_in;
        let k = self.chan_out * kk * kk;
        let col = t % n;
        let row = (t / n) % k;
        let b = t / n / k;
        let o = row / (kk * kk);
        let k1 = (row / kk) % kk;
        let k2 = row % kk;
        match (
            self.source(col / (self.w_in as int), k1, self.h_out as int),
            self.source(col % (self.w_in as int), k2, self.w_out as int),
        ) {
            (Some(oh), Some(ow)) => grad_out[offset4(gstr, b, o, oh, ow)],
            _ => zero,
        }
    }
}

/// Output coordinate `(y + padding - k) / stride` whose window puts kernel
/// position `k` on input coordinate `y`, where that is a whole number in
/// `0..out_extent`.
pub open spec fn source_of(y: int, k: int, stride: int, padding: int, out_extent: int) -> Option<int> {
    let num = y + padding - k;
    if num >= 0 && num % stride == 0 && num / stride < out_extent {
        Some(num / stride)
    } else {
        None
    }
}

fn source_coord(y: usize, k: usize, stride: usize, padding: usize, out_extent: usize) -> (r: Option<usize>)
    requires
        stride > 0,
        y + padding <= usize::MAX,
    ensures
        r is Some <==> source_of(y as int, k as int, stride as int, padding as int, out_extent as int) is Some,
        r is Some ==> r->Some_0 == source_of(y as int, k as int, stride as int, padding as int, out_extent as int)->Some_0,
        r is Some ==> r->Some_0 < out_extent,
{
    let sum = y + padding;
    if sum < k {
        return None;
    }
    let num = sum - k;
    if num % stride == 0 && num / stride < out_extent {
        Some(num / stride)
    } else {
        None
    }
}

/// Unfolds the output gradient into the backward patches: a fresh buffer of
/// `batch * chan_out * kernel * kernel * h_in * w_in` elements laid out as
/// `[batch, chan_out, kernel, kernel, h_in, w_in]`; see `grad_patch_value`.
pub fn unfold_grad_out<T: Copy>(op: &Conv2DOp, gstr: &[usize; 4], grad_out: &Vec<T>, zero: T) -> (r: Vec<T>)
    requires
        op.backward_fits(),
        op.stride > 0,
        op.h_in + op.padding <= usize::MAX,
        op.w_in + op.padding <= usize::MAX,
        op.grad_out_fits(gstr@, grad_out@.len() as int),
    ensures
        r@.len() == product(op.backward_patches()),
        forall|t: int|
            0 <= t < r@.len() ==> #[trigger] r@[t] == op.grad_patch_value(gstr@, grad_out@, zero, t),
{
    let total = prod(vec![op.batch, op.chan_out, op.kernel, op.kernel, op.h_in, op.w_in]).unwrap();
    let k = prod(vec![op.chan_out, op.kernel, op.kernel]).unwrap();
    let n = prod(vec![op.h_in, op.w_in]).unwrap();
    proof {
        lemma_product_pair(op.h_in, op.w_in);
        let rows = op.filter_cols();
        let hw = seq![op.h_in, op.w_in];
        lemma_product_prepend(op.batch, rows + hw);
        lemma_product_append(rows, hw);
        assert(seq![op.batch] + (rows + hw) =~= op.backward_patches());
        vstd::arithmetic::mul::lemma_mul_is_associative(op.batch as int, k as int, n as int);
        assert(product(rows) == (op.chan_out * op.kernel) * op.kernel) by {
            assert(rows.drop_last() =~= seq![op.chan_out, op.kernel]);
            lemma_product_pair(op.chan_out, op.kernel);
        }
    }
    let mut r: Vec<T> = Vec::new();
    let mut t: usize = 0;
    while t < total
        invariant
            total == (op.batch * k) * n,
            total == product(op.backward_patches()),
            k == (op.chan_out * op.kernel) * op.kernel,
            n == op.h_in * op.w_in,
            op.stride > 0,
            op.h_in + op.padding <= usize::MAX,
            op.w_in + op.padding <= usize::MAX,
            op.grad_out_fits(gstr@, grad_out@.len() as int),
            0 <= t <= total,
            r@.len() == t,
            forall|s: int| 0 <= s < t ==> #[trigger] r@[s] == op.grad_patch_value(gstr@, grad_out@, zero, s),
        decreases total - t,
    {
        let kk = op.kernel;
        proof {
            let (bb, ki, ni) = (op.batch as int, k as int, n as int);
            if ni == 0 || ki == 0 {
                assert((bb * ki) * ni == 0) by (nonlinear_arith)
                    requires
                        ni == 0 || ki == 0,
                ;
            }
            assert(ni > 0 && ki > 0);
            assert(op.h_in > 0 && op.w_in > 0) by (nonlinear_arith)
                requires
                    ni == op.h_in * op.w_in,
                    ni > 0,
            ;
            lemma_div_below(t as int, bb * ki, ni);
            lemma_div_below(t as int / ni, bb, ki);
            vstd::arithmetic::div_mod::lemma_mod_bound(t as int, ni);
            vstd::arithmetic::div_mod::lemma_mod_bound(t as int / ni, ki);
            let row = (t as int / ni) % ki;
            let kki = kk as int;
            assert(kki > 0) by {
                if kki == 0 {
                    assert((op.chan_out * kki) * kki == 0) by (nonlinear_arith)
                        requires
                            kki == 0,
                    ;
                }
            }
            vstd::arithmetic::mul::lemma_mul_is_associative(op.chan_out as int, kki, kki);
            assert(kki * kki > 0) by (nonlinear_arith)
                requires
                    kki > 0,
            ;
            assert(kki * kki <= ki) by (nonlinear_arith)
                requires
                    ki == (op.chan_out * kki) * kki,
                    ki > 0,
                    kki > 0,
            ;
            lemma_div_below(row, op.chan_out as int, kki * kki);
            vstd::arithmetic::div_mod::lemma_mod_bound(row / kki, kki);
            vstd::arithmetic::div_mod::lemma_mod_bound(row, kki);
            let col = t as int % ni;
            lemma_div_below(col, op.h_in as int, op.w_in as int);
            vstd::arithmetic::div_mod::lemma_mod_bound(col, op.w_in as int);
        }
        let col = t % n;
        let row = (t / n) % k;
        let b = t / n / k;
        let o = row / (kk * kk);
        let k1 = (row / kk) % kk;
        let k2 = row % kk;
        let y = col / op.w_in;
        let x = col % op.w_in;
        let sy = source_coord(y, k1, op.stride, op.padding, op.h_out);
        let sx = source_coord(x, k2, op.stride, op.padding, op.w_out);
        let v = match (sy, sx) {
            (Some(oh), Some(ow)) => {
                let g_len = grad_out.len();
                proof {
                    assert(offset4(gstr@, b as int, o as int, oh as int, ow as int) < g_len);
                    vstd::arithmetic::mul::lemma_mul_nonnegative(b as int, gstr@[0] as int);
                    vstd::arithmetic::mul::lemma_mul_nonnegative(o as int, gstr@[1] as int);
                    vstd::arithmetic::mul::lemma_mul_nonnegative(oh as int, gstr@[2] as int);
                    vstd::arithmetic::mul::lemma_mul_nonnegative(ow as int, gstr@[3] as int);
                }
                grad_out[b * gstr[0] + o * gstr[1] + oh * gstr[2] + ow * gstr[3]]
            },
            _ => zero,
        };
        r.push(v);
        t = t + 1;
    }
    r
}

impl Conv2DOp {
    /// Every filter index `[chan_out, chan_in, kernel, kernel]` reaches an
    /// offset below `len` under `fstr`.
    pub open spec fn filters_fit(self, fstr: Seq<usize>, len: int) -> bool {
        &&& fstr.len() == 4
        &&& forall|o: int, c: int, k1: int, k2: int|
            0 <= o < self.chan_out && 0 <= c < self.chan_in && 0 <= k1 < self.kernel && 0 <= k2
                < self.kernel ==> #[trigger] offset4(fstr, o, c, k1, k2) < len
    }

    /// Offset, under `fstr`, of the filter element that position `j` of the
    /// transposed filters `[chan_in, chan_out, kernel, kernel]` holds.
    pub open spec fn transposed_source(self, fstr: Seq<usize>, j: int) -> int {
        let kk = self.kernel as int;
        let kd = self.chan_out * kk * kk;
        let c = j / kd;
        let r = j % kd;
        offset4(fstr, r / (kk * kk), c, (r / kk) % kk, r % kk)
    }

    /// Elements of one batch item of the transposed filters.
    pub open spec fn block(self) -> int {
        self.chan_in * ((self.chan_out * self.kernel) * self.kernel)
    }

    /// The `(filter offset, gradient offset)` pairs of the batch sum of the
    /// per-batch filter gradients over the first `n` transposed positions:
    /// position by position, batch item by batch item.
    pub open spec fn sum_events(self, fstr: Seq<usize>, n: int) -> Seq<(usize, usize)>
        decreases n,
    {
        if n <= 0 {
            Seq::empty()
        } else {
            self.sum_events(fstr, n - 1) + Seq::new(
                self.batch as nat,
                |b: int| (self.transposed_source(fstr, n - 1) as usize, (b * self.block() + n - 1) as usize),
            )
        }
    }
}

proof fn lemma_filter_decode(op: Conv2DOp, j: int)
    requires
        0 <= j < op.block(),
    ensures
        ({
            let kk = op.kernel as int;
            let kd = op.chan_out * kk * kk;
            let r = j % kd;
            &&& kd > 0 && kk > 0
            &&& 0 < kk * kk <= kd
            &&& 0 <= j / kd < op.chan_in
            &&& 0 <= r / (kk * kk) < op.chan_out
            &&& 0 <= (r / kk) % kk < kk
            &&& 0 <= r % kk < kk
        }),
{
    let kk = op.kernel as int;
    let kd = op.chan_out * kk * kk;
    let ci = op.chan_in as int;
    vstd::arithmetic::mul::lemma_mul_is_associative(op.chan_out as int, kk, kk);
    if kd <= 0 {
        assert(ci * kd <= 0) by (nonlinear_arith)
            requires
                kd <= 0,
                ci >= 0,
        ;
    }
    assert(kd > 0);
    assert(kk > 0 && kk * kk > 0 && op.chan_out > 0) by (nonlinear_arith)
        requires
            kd == (op.chan_out * kk) * kk,
            kd > 0,
            kk >= 0,
    ;
    assert(kk * kk <= kd) by (nonlinear_arith)
        requires
            kd == (op.chan_out * kk) * kk,
            op.chan_out > 0,
    ;
    lemma_div_below(j, ci, kd);
    vstd::arithmetic::div_mod::lemma_mod_bound(j, kd);
    let r = j % kd;
    lemma_div_below(r, op.chan_out as int, kk * kk);
    vstd::arithmetic::div_mod::lemma_mod_bound(r / kk, kk);
    vstd::arithmetic::div_mod::lemma_mod_bound(r, kk);
}

/// The filters transposed to `[chan_in, chan_out, kernel, kernel]` and
/// repeated once per batch item: a fresh buffer of `batch * block` elements
/// whose element `t` is the filter element at `transposed_source(t % block)`.
pub fn transpose_filters<T: Copy>(op: &Conv2DOp, fstr: &[usize; 4], filters: &Vec<T>) -> (r: Vec<T>)
    requires
        op.backward_fits(),
        op.filters_fit(fstr@, filters@.len() as int),
    ensures
        r@.len() == product(op.batched_filters()),
        r@.len() == op.batch * op.block(),
        forall|t: int|
            0 <= t < r@.len() ==> #[trigger] r@[t] == filters@[op.transposed_source(fstr@, t % op.block())],
{
    let total = prod(vec![op.batch, op.chan_in, op.chan_out, op.kernel, op.kernel]).unwrap();
    let block = prod(vec![op.chan_in, op.chan_out, op.kernel, op.kernel]).unwrap();
    let kd = prod(vec![op.chan_out, op.kernel, op.kernel]).unwrap();
    proof {
        let cols = op.filter_cols();
        lemma_product_prepend(op.chan_in, cols);
        assert(seq![op.chan_in] + cols =~= seq![op.chan_in, op.chan_out, op.kernel, op.kernel]);
        lemma_product_prepend(op.batch, seq![op.chan_in, op.chan_out, op.kernel, op.kernel]);
        assert(seq![op.batch] + seq![op.chan_in, op.chan_out, op.kernel, op.kernel] =~= op.batched_filters());
        assert(product(cols) == (op.chan_out * op.kernel) * op.kernel) by {
            assert(cols.drop_last() =~= seq![op.chan_out, op.kernel]);
            lemma_product_pair(op.chan_out, op.kernel);
        }
    }
    let mut r: Vec<T> = Vec::new();
    let mut t: usize = 0;
    while t < total
        invariant
            total == op.batch * op.block(),
            total == product(op.batched_filters()),
            block == op.block(),
            kd == (op.chan_out * op.kernel) * op.kernel,
            op.filters_fit(fstr@, filters@.len() as int),
            0 <= t <= total,
            r@.len() == t,
            forall|s: int|
                0 <= s < t ==> #[trigger] r@[s] == filters@[op.transposed_source(fstr@, s % op.block())],
        decreases total - t,
    {
        proof {
            if block == 0 {
                assert(op.batch * 0 == 0);
            }
            vstd::arithmetic::div_mod::lemma_mod_bound(t as int, block as int);
            lemma_filter_decode(*op, t as int % block as int);
        }
        let kk = op.kernel;
        let j = t % block;
        let c = j / kd;
        let rr = j % kd;
        let o = rr / (kk * kk);
        let k1 = (rr / kk) % kk;
        let k2 = rr % kk;
        let f_len = filters.len();
        proof {
            assert(offset4(fstr@, o as int, c as int, k1 as int, k2 as int) < f_len);
            vstd::arithmetic::mul::lemma_mul_nonnegative(o as int, fstr@[0] as int);
            vstd::arithmetic::mul::lemma_mul_nonnegative(c as int, fstr@[1] as int);
            vstd::arithmetic::mul::lemma_mul_nonnegative(k1 as int, fstr@[2] as int);
            vstd::arithmetic::mul::lemma_mul_nonnegative(k2 as int, fstr@[3] as int);
        }
        r.push(filters[o * fstr[0] + c * fstr[1] + k1 * fstr[2] + k2 * fstr[3]]);
        t = t + 1;
    }
    r
}

/// Sums the per-batch filter gradients (laid out as the transposed filters,
/// `batch * block` elements) into the filter gradient: for every transposed
/// position `j` in order and every batch item `b` in order,
/// `grad_filters[transposed_source(j)] = add_fn(that, per_batch[b * block + j])`.
pub fn sum_filter_grads<T: Copy, A: Fn(T, T) -> T>(
    op: &Conv2DOp,
    per_batch: &Vec<T>,
    fstr: &[usize; 4],
    grad_filters: &mut Vec<T>,
    add_fn: A,
)
    requires
        op.backward_fits(),
        per_batch@.len() == op.batch * op.block(),
        op.filters_fit(fstr@, old(grad_filters)@.len() as int),
        forall|x: T, y: T| call_requires(add_fn, (x, y)),
    ensures
        final(grad_filters)@.len() == old(grad_filters)@.len(),
        accumulated(
            add_fn,
            per_batch@,
            old(grad_filters)@,
            op.sum_events(fstr@, op.block()),
            final(grad_filters)@,
        ),
{
    let block = prod(vec![op.chan_in, op.chan_out, op.kernel, op.kernel]).unwrap();
    let kd = prod(vec![op.chan_out, op.kernel, op.kernel]).unwrap();
    proof {
        let cols = op.filter_cols();
        lemma_product_prepend(op.chan_in, cols);
        assert(seq![op.chan_in] + cols =~= seq![op.chan_in, op.chan_out, op.kernel, op.kernel]);
        assert(product(cols) == (op.chan_out * op.kernel) * op.kernel) by {
            assert(cols.drop_last() =~= seq![op.chan_out, op.kernel]);
            lemma_product_pair(op.chan_out, op.kernel);
        }
    }
    let ghost g0 = grad_filters@;
    let ghost mut states: Seq<Seq<T>> = seq![g0];
    let pb_len = per_batch.len();
    let mut j: usize = 0;
    assert(op.sum_events(fstr@, 0) =~= Seq::<(usize, usize)>::empty());
    while j < block
        invariant
            block == op.block(),
            kd == (op.chan_out * op.kernel) * op.kernel,
            per_batch@.len() == op.batch * op.block(),
            pb_len == per_batch@.len(),
            op.filters_fit(fstr@, grad_filters@.len() as int),
            grad_filters@.len() == g0.len(),
            forall|x: T, y: T| call_requires(add_fn, (x, y)),
            0 <= j <= block,
            accum_trace(add_fn, per_batch@, op.sum_events(fstr@, j as int), states),
            states[0] == g0,
            states.last() == grad_filters@,
        decreases block - j,
    {
        proof {
            lemma_filter_decode(*op, j as int);
        }
        let kk = op.kernel;
        let c = j / kd;
        let rr = j % kd;
        let o = rr / (kk * kk);
        let k1 = (rr / kk) % kk;
        let k2 = rr % kk;
        let g_len = grad_filters.len();
        proof {
            assert(offset4(fstr@, o as int, c as int, k1 as int, k2 as int) < g_len);
            vstd::arithmetic::mul::lemma_mul_nonnegative(o as int, fstr@[0] as int);
            vstd::arithmetic::mul::lemma_mul_nonnegative(c as int, fstr@[1] as int);
            vstd::arithmetic::mul::lemma_mul_nonnegative(k1 as int, fstr@[2] as int);
            vstd::arithmetic::mul::lemma_mul_nonnegative(k2 as int, fstr@[3] as int);
        }
        let target = o * fstr[0] + c * fstr[1] + k1 * fstr[2] + k2 * fstr[3];
        assert(target == op.transposed_source(fstr@, j as int));
        let ghost before = op.sum_events(fstr@, j as int);
        let ghost tail = Seq::new(
            op.batch as nat,
            |b: int| (op.transposed_source(fstr@, j as int) as usize, (b * op.block() + j) as usize),
        );
        let mut b: usize = 0;
        assert(before + tail.take(0) =~= before);
        while b < op.batch
            invariant
                block == op.block(),
                0 <= j < block,
                per_batch@.len() == op.batch * op.block(),
                pb_len == per_batch@.len(),
                target < grad_filters@.len(),
                target == op.transposed_source(fstr@, j as int),
                grad_filters@.len() == g0.len(),
                forall|x: T, y: T| call_requires(add_fn, (x, y)),
                tail == Seq::new(
                    op.batch as nat,
                    |b: int| (op.transposed_source(fstr@, j as int) as usize, (b * op.block() + j) as usize),
                ),
                0 <= b <= op.batch,
                accum_trace(add_fn, per_batch@, before + tail.take(b as int), states),
                states[0] == g0,
                states.last() == grad_filters@,
            decreases op.batch - b,
        {
            proof {
                lemma_radix(b as int, op.batch as int, j as int, block as int);
            }
            let src = b * block + j;
            let v = add_fn(grad_filters[target], per_batch[src]);
            grad_filters.set(target, v);
            proof {
                assert(before + tail.take(b + 1) =~= (before + tail.take(b as int)).push((target, src)));
                lemma_accum_step(add_fn, per_batch@, before + tail.take(b as int), states, target, src, grad_filters@);
                states = states.push(grad_filters@);
            }
            b = b + 1;
        }
        proof {
            assert(tail.take(op.batch as int) =~= tail);
            assert(op.sum_events(fstr@, j + 1) =~= before + tail);
        }
        j = j + 1;
    }
}

impl GemmPlan {
    /// Whether `batched_gemm` can run this plan over operands of `lhs_len`
    /// and `rhs_len` elements: the operands' indices land inside them, the
    /// output is contiguous, and its element count fits in a `usize`.
    pub fn check(&self, lhs_len: usize, rhs_len: usize) -> (r: bool)
        ensures
            r == (self.fits(lhs_len as int, rhs_len as int) && self.num_out() <= usize::MAX),
    {
        let (bb, mm, nn, kk) = (self.batch, self.m, self.n, self.k);
        let lhs_ok = check_fits4(&[bb, mm, kk, 1], &[self.lhs_strides[0], self.lhs_strides[1], self.lhs_strides[2], 0], lhs_len);
        let rhs_ok = check_fits4(&[bb, kk, nn, 1], &[self.rhs_strides[0], self.rhs_strides[1], self.rhs_strides[2], 0], rhs_len);
        proof {
            let ls = seq![self.lhs_strides@[0], self.lhs_strides@[1], self.lhs_strides@[2], 0usize];
            let rs = seq![self.rhs_strides@[0], self.rhs_strides@[1], self.rhs_strides@[2], 0usize];
            let le = seq![bb, mm, kk, 1usize];
            let re = seq![bb, kk, nn, 1usize];
            assert(lhs_ok == fits4(le, ls, lhs_len as int)) by {
                assert([bb, mm, kk, 1usize]@ =~= le);
                assert([self.lhs_strides[0], self.lhs_strides[1], self.lhs_strides[2], 0usize]@ =~= ls);
            }
            assert(rhs_ok == fits4(re, rs, rhs_len as int)) by {
                assert([bb, kk, nn, 1usize]@ =~= re);
                assert([self.rhs_strides[0], self.rhs_strides[1], self.rhs_strides[2], 0usize]@ =~= rs);
            }
            assert forall|b: int, i: int, p: int| 0 <= b < bb && 0 <= i < mm && 0 <= p < kk implies #[trigger] self.lhs_at(b, i, p) == offset4(ls, b, i, p, 0) by {}
            assert forall|b: int, p: int, j: int| 0 <= b < bb && 0 <= p < kk && 0 <= j < nn implies #[trigger] self.rhs_at(b, p, j) == offset4(rs, b, p, j, 0) by {}
            if fits4(le, ls, lhs_len as int) {
                assert forall|b: int, i: int, p: int| 0 <= b < bb && 0 <= i < mm && 0 <= p < kk implies #[trigger] self.lhs_at(b, i, p) < lhs_len by {
                    assert(offset4(ls, b, i, p, 0) < lhs_len);
                }
            }
            if fits4(re, rs, rhs_len as int) {
                assert forall|b: int, p: int, j: int| 0 <= b < bb && 0 <= p < kk && 0 <= j < nn implies #[trigger] self.rhs_at(b, p, j) < rhs_len by {
                    assert(offset4(rs, b, p, j, 0) < rhs_len);
                }
            }
            if self.fits(lhs_len as int, rhs_len as int) {
                assert forall|b: int, i: int, p: int, x: int| 0 <= b < le[0] && 0 <= i < le[1] && 0 <= p < le[2] && 0 <= x < le[3] implies #[trigger] offset4(ls, b, i, p, x) < lhs_len by {
                    assert(self.lhs_at(b, i, p) < lhs_len);
                }
                assert forall|b: int, p: int, j: int, x: int| 0 <= b < re[0] && 0 <= p < re[1] && 0 <= j < re[2] && 0 <= x < re[3] implies #[trigger] offset4(rs, b, p, j, x) < rhs_len by {
                    assert(self.rhs_at(b, p, j) < rhs_len);
                }
            }
        }
        let out_ok = match mm.checked_mul(nn) {
            Some(mn) => self.out_strides[0] == mn && self.out_strides[1] == nn && self.out_strides[2] == 1,
            None => false,
        };
        let count_ok = if bb == 0 || mm == 0 || nn == 0 {
            proof {
                let (x, y, z) = (bb as int, mm as int, nn as int);
                assert((x * y) * z == 0) by (nonlinear_arith)
                    requires
                        x == 0 || y == 0 || z == 0,
                ;
            }
            true
        } else {
            proof {
                let (x, y, z) = (bb as int, mm as int, nn as int);
                assert(x * y <= (x * y) * z) by (nonlinear_arith)
                    requires
                        x >= 1 && y >= 1 && z >= 1,
                ;
            }
            match bb.checked_mul(mm) {
                Some(bm) => bm.checked_mul(nn).is_some(),
                None => false,
            }
        };
        lhs_ok && rhs_ok && out_ok && count_ok
    }
}

impl Conv2DOp {
    /// Whether the input layout fits a buffer of `len` elements.
    pub fn check_input(&self, istr: &[usize; 4], len: usize) -> (r: bool)
        ensures
            r == self.layout_fits(istr@, len as int),
    {
        let r = check_fits4(&[self.batch, self.chan_in, self.h_in, self.w_in], istr, len);
        assert([self.batch, self.chan_in, self.h_in, self.w_in]@ =~= seq![self.batch, self.chan_in, self.h_in, self.w_in]);
        r
    }

    /// Whether the filter layout fits a buffer of `len` elements.
    pub fn check_filters(&self, fstr: &[usize; 4], len: usize) -> (r: bool)
        ensures
            r == self.filters_fit(fstr@, len as int),
    {
        let r = check_fits4(&[self.chan_out, self.chan_in, self.kernel, self.kernel], fstr, len);
        assert([self.chan_out, self.chan_in, self.kernel, self.kernel]@ =~= seq![self.chan_out, self.chan_in, self.kernel, self.kernel]);
        r
    }

    /// Whether the output-gradient layout fits a buffer of `len` elements.
    pub fn check_grad_out(&self, gstr: &[usize; 4], len: usize) -> (r: bool)
        ensures
            r == self.grad_out_fits(gstr@, len as int),
    {
        let r = check_fits4(&[self.batch, self.chan_out, self.h_out, self.w_out], gstr, len);
        assert([self.batch, self.chan_out, self.h_out, self.w_out]@ =~= seq![self.batch, self.chan_out, self.h_out, self.w_out]);
        r
    }

    /// Whether the window arithmetic of both passes fits in a `usize`:
    /// `o * stride + kernel` forward, `dim + padding` backward, and a
    /// positive stride.
    pub fn check_geometry(&self) -> (r: bool)
        ensures
            r == (self.coords_fit() && self.stride > 0 && self.h_in + self.padding <= usize::MAX
                && self.w_in + self.padding <= usize::MAX),
    {
        let fwd = match (self.h_out.checked_mul(self.stride), self.w_out.checked_mul(self.stride)) {
            (Some(h), Some(w)) => h.checked_add(self.kernel).is_some() && w.checked_add(self.kernel).is_some(),
            _ => false,
        };
        fwd && self.stride > 0 && self.h_in.checked_add(self.padding).is_some()
            && self.w_in.checked_add(self.padding).is_some()
    }
}

/// Why a convolution pass refused to run.
#[derive(Clone, Copy, Debug, PartialEq, Eq)]
pub enum ConvError {
    /// A size of the patches, filters or products does not fit in a `usize`.
    Size,
    /// Window arithmetic does not fit in a `usize`, or the stride is zero.
    Geometry,
    /// An operand's layout reaches outside its buffer, or a buffer has the wrong length.
    Layout,
}

/// `g` is the forward product's plan for `op` (what `forward_gemm` returns).
pub open spec fn is_forward_plan(op: Conv2DOp, g: GemmPlan) -> bool {
    let k = product(op.patch_rows());
    let n = op.h_out * op.w_out;
    &&& g.batch == op.batch && g.m == op.chan_out && g.k == k && g.n == n
    &&& g.lhs_strides@ == seq![0usize, k as usize, 1usize]
    &&& g.rhs_strides@ == seq![(k * n) as usize, n as usize, 1usize]
    &&& g.out_strides@ == seq![(op.chan_out * n) as usize, n as usize, 1usize]
    &&& !g.accumulate
}

impl Conv2DOp {
    /// The forward pass can run on an input of `inp_len` elements laid out by
    /// `istr` and contiguous `[chan_out, chan_in, kernel, kernel]` filters of
    /// `filters_len` elements.
    pub open spec fn forward_ok(self, istr: Seq<usize>, inp_len: int, filters_len: int) -> bool {
        &&& self.forward_fits()
        &&& self.coords_fit()
        &&& self.layout_fits(istr, inp_len)
        &&& forall|g: GemmPlan|
            is_forward_plan(self, g) ==> #[trigger] g.fits(filters_len, product(self.forward_patches()))
                && g.num_out() <= usize::MAX
    }

    /// The `chan_in * kernel * kernel` products that make output element `t`
    /// of `[batch, chan_out, h_out, w_out]`: each filter weight of output
    /// channel `o` with the patch element it meets.
    pub open spec fn conv_pairs<T>(self, istr: Seq<usize>, inp: Seq<T>, filters: Seq<T>, zero: T, t: int) -> Seq<(T, T)> {
        let k = product(self.patch_rows());
        let n = self.h_out * self.w_out;
        let b = t / n / (self.chan_out as int);
        let o = (t / n) % (self.chan_out as int);
        let col = t % n;
        Seq::new(k as nat, |p: int| (filters[o * k + p], self.patch_value(istr, inp, zero, (b * k + p) * n + col)))
    }
}

fn plan_count(g: &GemmPlan) -> (r: usize)
    requires
        g.num_out() <= usize::MAX,
    ensures
        r == g.num_out(),
{
    if g.batch == 0 || g.m == 0 || g.n == 0 {
        proof {
            let (x, y, z) = (g.batch as int, g.m as int, g.n as int);
            assert((x * y) * z == 0) by (nonlinear_arith)
                requires
                    x == 0 || y == 0 || z == 0,
            ;
        }
        0
    } else {
        proof {
            let (x, y, z) = (g.batch as int, g.m as int, g.n as int);
            assert(x * y <= (x * y) * z) by (nonlinear_arith)
                requires
                    x >= 1 && y >= 1 && z >= 1,
            ;
        }
        g.batch * g.m * g.n
    }
}

/// Forward pass of a convolution: unfolds the input into patches and runs
/// the forward product. Each element `t` of the contiguous output
/// `[batch, chan_out, h_out, w_out]` is the dot product, with `mul_fn` and
/// `add_fn` from `zero`, of the filters of its output channel with the
/// patch of its output position. Refused where a size, the window geometry
/// or a layout does not fit.
pub fn conv2d_forward<T: Copy, M: Fn(T, T) -> T, A: Fn(T, T) -> T>(
    op: &Conv2DOp,
    istr: &[usize; 4],
    inp: &Vec<T>,
    filters: &Vec<T>,
    zero: T,
    mul_fn: M,
    add_fn: A,
) -> (r: Result<Vec<T>, ConvError>)
    requires
        forall|x: T, y: T| call_requires(mul_fn, (x, y)),
        forall|x: T, y: T| call_requires(add_fn, (x, y)),
    ensures
        r is Ok <==> op.forward_ok(istr@, inp@.len() as int, filters@.len() as int),
        r is Ok ==> ({
            let out = r->Ok_0@;
            &&& out.len() == ((op.batch * op.chan_out) * op.h_out) * op.w_out
            &&& forall|t: int|
                0 <= t < out.len() ==> is_dot(
                    mul_fn,
                    add_fn,
                    zero,
                    op.conv_pairs(istr@, inp@, filters@, zero, t),
                    #[trigger] out[t],
                )
        }),
{
    let (g, patches_len) = match forward_gemm(op) {
        Some(x) => x,
        None => return Err(ConvError::Size),
    };
    let coords = match (op.h_out.checked_mul(op.stride), op.w_out.checked_mul(op.stride)) {
        (Some(h), Some(w)) => h.checked_add(op.kernel).is_some() && w.checked_add(op.kernel).is_some(),
        _ => false,
    };
    if !coords {
        return Err(ConvError::Geometry);
    }
    if !op.check_input(istr, inp.len()) {
        return Err(ConvError::Layout);
    }
    if !g.check(filters.len(), patches_len) {
        proof {
            assert(is_forward_plan(*op, g));
        }
        return Err(ConvError::Layout);
    }
    proof {
        assert forall|g2: GemmPlan| is_forward_plan(*op, g2) implies #[trigger] g2.fits(
            filters@.len() as int,
            product(op.forward_patches()),
        ) && g2.num_out() <= usize::MAX by {
            let (fl, pl) = (filters@.len() as int, product(op.forward_patches()));
            assert forall|b: int, i: int, p: int|
                0 <= b < g2.batch && 0 <= i < g2.m && 0 <= p < g2.k implies #[trigger] g2.lhs_at(b, i, p) < fl by {
                assert(g.lhs_at(b, i, p) < fl);
            }
            assert forall|b: int, p: int, j: int|
                0 <= b < g2.batch && 0 <= p < g2.k && 0 <= j < g2.n implies #[trigger] g2.rhs_at(b, p, j) < pl by {
                assert(g.rhs_at(b, p, j) < pl);
            }
        }
    }
    let patches = unfold_input(op, istr, inp, zero);
    let total = plan_count(&g);
    let mut out: Vec<T> = Vec::new();
    let mut i: usize = 0;
    while i < total
        invariant
            0 <= i <= total,
            out@.len() == i,
        decreases total - i,
    {
        out.push(zero);
        i = i + 1;
    }
    batched_gemm(&g, filters, &patches, &mut out, zero, mul_fn, add_fn);
    proof {
        let k = g.k as int;
        let n = g.n as int;
        vstd::arithmetic::mul::lemma_mul_is_associative(op.batch * op.chan_out, op.h_out as int, op.w_out as int);
        assert forall|t: int| 0 <= t < out@.len() implies is_dot(
            mul_fn,
            add_fn,
            zero,
            op.conv_pairs(istr@, inp@, filters@, zero, t),
            #[trigger] out@[t],
        ) by {
            assert(gemm_entry(false, mul_fn, add_fn, zero, g.pairs(filters@, patches@, t), zero, out@[t]));
            let (bb, mm) = (g.batch as int, g.m as int);
            assert(n > 0 && mm > 0) by {
                if n == 0 || mm == 0 {
                    assert((bb * mm) * n == 0) by (nonlinear_arith)
                        requires
                            n == 0 || mm == 0,
                    ;
                }
            }
            lemma_div_below(t, bb * mm, n);
            lemma_div_below(t / n, bb, mm);
            vstd::arithmetic::div_mod::lemma_mod_bound(t, n);
            vstd::arithmetic::div_mod::lemma_mod_bound(t / n, mm);
            let b = t / n / mm;
            let o = (t / n) % mm;
            let col = t % n;
            assert forall|p: int| 0 <= p < k implies #[trigger] g.pairs(filters@, patches@, t)[p] == op.conv_pairs(
                istr@,
                inp@,
                filters@,
                zero,
                t,
            )[p] by {
                assert(g.rhs_at(b, p, col) < patches@.len());
                assert(g.rhs_at(b, p, col) == (b * k + p) * n + col) by (nonlinear_arith)
                    requires
                        g.rhs_at(b, p, col) == b * (k * n) + p * n + col * 1,
                ;
                assert(g.lhs_at(b, o, p) == o * k + p);
            }
            assert(g.pairs(filters@, patches@, t) =~= op.conv_pairs(istr@, inp@, filters@, zero, t));
        }
    }
    Ok(out)
}

/// `g` is the data-gradient product's plan for `op` (the first plan `backward_gemms` returns).
pub open spec fn is_data_plan(op: Conv2DOp, g: GemmPlan) -> bool {
    let c = op.chan_in as int;
    let k = product(op.filter_cols());
    let n = op.h_in * op.w_in;
    &&& g.batch == op.batch && g.m == c && g.k == k && g.n == n
    &&& g.lhs_strides@ == seq![(c * k) as usize, k as usize, 1usize]
    &&& g.rhs_strides@ == seq![(k * n) as usize, n as usize, 1usize]
    &&& g.out_strides@ == seq![(c * n) as usize, n as usize, 1usize]
    &&& g.accumulate
}

/// `g` is the weight-gradient product's plan for `op` (the second plan
/// `backward_gemms` returns), here run into a fresh per-batch buffer.
pub open spec fn is_weight_plan(op: Conv2DOp, g: GemmPlan) -> bool {
    let c = op.chan_in as int;
    let k = product(op.filter_cols());
    let n = op.h_in * op.w_in;
    &&& g.batch == op.batch && g.m == c && g.k == n && g.n == k
    &&& g.lhs_strides@ == seq![(c * n) as usize, n as usize, 1usize]
    &&& g.rhs_strides@ == seq![(n * k) as usize, 1usize, n as usize]
    &&& g.out_strides@ == seq![(c * k) as usize, k as usize, 1usize]
    &&& g.accumulate
}

proof fn lemma_same_plan<T>(g: GemmPlan, g2: GemmPlan, l: Seq<T>, r: Seq<T>, ll: int, rl: int)
    requires
        g.batch == g2.batch && g.m == g2.m && g.k == g2.k && g.n == g2.n,
        g.lhs_strides@ == g2.lhs_strides@,
        g.rhs_strides@ == g2.rhs_strides@,
        g.out_strides@ == g2.out_strides@,
    ensures
        forall|t: int| #[trigger] g2.pairs(l, r, t) == g.pairs(l, r, t),
        g2.fits(ll, rl) == g.fits(ll, rl),
        g2.num_out() == g.num_out(),
{
    assert forall|t: int| #[trigger] g2.pairs(l, r, t) == g.pairs(l, r, t) by {
        assert(g2.pairs(l, r, t) =~= g.pairs(l, r, t));
    }
    if g.fits(ll, rl) {
        assert forall|b: int, i: int, p: int|
            0 <= b < g2.batch && 0 <= i < g2.m && 0 <= p < g2.k implies #[trigger] g2.lhs_at(b, i, p) < ll by {
            assert(g.lhs_at(b, i, p) < ll);
        }
        assert forall|b: int, p: int, j: int|
            0 <= b < g2.batch && 0 <= p < g2.k && 0 <= j < g2.n implies #[trigger] g2.rhs_at(b, p, j) < rl by {
            assert(g.rhs_at(b, p, j) < rl);
        }
    }
    if g2.fits(ll, rl) {
        assert forall|b: int, i: int, p: int|
            0 <= b < g.batch && 0 <= i < g.m && 0 <= p < g.k implies #[trigger] g.lhs_at(b, i, p) < ll by {
            assert(g2.lhs_at(b, i, p) < ll);
        }
        assert forall|b: int, p: int, j: int|
            0 <= b < g.batch && 0 <= p < g.k && 0 <= j < g.n implies #[trigger] g.rhs_at(b, p, j) < rl by {
            assert(g2.rhs_at(b, p, j) < rl);
        }
    }
}

impl Conv2DOp {
    /// The contiguous strides of the output gradient and of the filters fit in a `usize`.
    pub open spec fn contiguous_fits(self) -> bool {
        &&& self.h_out * self.w_out <= usize::MAX
        &&& self.chan_out * (self.h_out * self.w_out) <= usize::MAX
        &&& self.kernel * self.kernel <= usize::MAX
        &&& self.chan_in * (self.kernel * self.kernel) <= usize::MAX
    }

    /// Contiguous strides of the output gradient `[batch, chan_out, h_out, w_out]`.
    pub open spec fn grad_out_strides(self) -> Seq<usize> {
        seq![(self.chan_out * (self.h_out * self.w_out)) as usize, (self.h_out * self.w_out) as usize, self.w_out, 1usize]
    }

    /// Contiguous strides of the filters `[chan_out, chan_in, kernel, kernel]`.
    pub open spec fn filter_strides(self) -> Seq<usize> {
        seq![(self.chan_in * (self.kernel * self.kernel)) as usize, (self.kernel * self.kernel) as usize, self.kernel, 1usize]
    }

    /// The per-batch transposed filters, as `transpose_filters` builds them.
    pub open spec fn transposed<T>(self, filters: Seq<T>) -> Seq<T> {
        Seq::new(
            (self.batch * self.block()) as nat,
            |t: int| filters[self.transposed_source(self.filter_strides(), t % self.block())],
        )
    }

    /// The backward patches of the output gradient, as `unfold_grad_out` builds them.
    pub open spec fn grad_patches<T>(self, grad_out: Seq<T>, zero: T) -> Seq<T> {
        Seq::new(
            product(self.backward_patches()) as nat,
            |t: int| self.grad_patch_value(self.grad_out_strides(), grad_out, zero, t),
        )
    }

    /// The backward pass can run on contiguous buffers of these lengths.
    pub open spec fn backward_ok(
        self,
        inp_len: int,
        grad_inp_len: int,
        filters_len: int,
        grad_filters_len: int,
        grad_out_len: int,
    ) -> bool {
        &&& self.backward_fits()
        &&& self.stride > 0
        &&& self.h_in + self.padding <= usize::MAX
        &&& self.w_in + self.padding <= usize::MAX
        &&& self.contiguous_fits()
        &&& self.grad_out_fits(self.grad_out_strides(), grad_out_len)
        &&& self.filters_fit(self.filter_strides(), filters_len)
        &&& self.filters_fit(self.filter_strides(), grad_filters_len)
        &&& forall|g: GemmPlan|
            is_data_plan(self, g) ==> #[trigger] g.fits(self.batch * self.block(), product(self.backward_patches()))
                && g.num_out() <= usize::MAX && grad_inp_len == g.num_out()
        &&& forall|g: GemmPlan|
            is_weight_plan(self, g) ==> #[trigger] g.fits(inp_len, product(self.backward_patches()))
                && g.num_out() <= usize::MAX
    }
}

/// Backward pass of a convolution over contiguous buffers. The input
/// gradient gains, element by element, the data product of the per-batch
/// transposed filters with the unfolded output gradient. The filter gradient
/// gains, per filter element and batch item in order, the weight product of
/// the input with the transposed unfolded output gradient, computed into a
/// per-batch buffer. Refused, with both gradients unchanged, where a size,
/// the window geometry or a buffer length does not fit.
pub fn conv2d_backward<T: Copy, M: Fn(T, T) -> T + Copy, A: Fn(T, T) -> T + Copy>(
    op: &Conv2DOp,
    inp: &Vec<T>,
    grad_inp: &mut Vec<T>,
    filters: &Vec<T>,
    grad_filters: &mut Vec<T>,
    grad_out: &Vec<T>,
    zero: T,
    mul_fn: M,
    add_fn: A,
) -> (r: Result<(), ConvError>)
    requires
        forall|x: T, y: T| call_requires(mul_fn, (x, y)),
        forall|x: T, y: T| call_requires(add_fn, (x, y)),
    ensures
        r is Ok <==> op.backward_ok(
            inp@.len() as int,
            old(grad_inp)@.len() as int,
            filters@.len() as int,
            old(grad_filters)@.len() as int,
            grad_out@.len() as int,
        ),
        r is Err ==> final(grad_inp)@ == old(grad_inp)@ && final(grad_filters)@ == old(grad_filters)@,
        r is Ok ==> final(grad_inp)@.len() == old(grad_inp)@.len(),
        r is Ok ==> forall|g: GemmPlan, t: int|
            is_data_plan(*op, g) && 0 <= t < old(grad_inp)@.len() ==> gemm_entry(
                true,
                mul_fn,
                add_fn,
                zero,
                #[trigger] g.pairs(op.transposed(filters@), op.grad_patches(grad_out@, zero), t),
                old(grad_inp)@[t],
                final(grad_inp)@[t],
            ),
        r is Ok ==> exists|per_batch: Seq<T>|
            {
                &&& forall|g: GemmPlan|
                    is_weight_plan(*op, g) ==> #[trigger] g.num_out() == per_batch.len()
                &&& forall|g: GemmPlan, t: int|
                    is_weight_plan(*op, g) && 0 <= t < per_batch.len() ==> gemm_entry(
                        true,
                        mul_fn,
                        add_fn,
                        zero,
                        #[trigger] g.pairs(inp@, op.grad_patches(grad_out@, zero), t),
                        zero,
                        per_batch[t],
                    )
                &&& accumulated(
                    add_fn,
                    per_batch,
                    old(grad_filters)@,
                    op.sum_events(op.filter_strides(), op.block()),
                    final(grad_filters)@,
                )
            },
{
    let (data, weight, patches_len, filters_len) = match backward_gemms(op) {
        Some(x) => x,
        None => return Err(ConvError::Size),
    };
    if op.stride == 0 || op.h_in.checked_add(op.padding).is_none() || op.w_in.checked_add(op.padding).is_none() {
        return Err(ConvError::Geometry);
    }
    let hw = match op.h_out.checked_mul(op.w_out) {
        Some(v) => v,
        None => return Err(ConvError::Size),
    };
    let ohw = match op.chan_out.checked_mul(hw) {
        Some(v) => v,
        None => return Err(ConvError::Size),
    };
    let kk = match op.kernel.checked_mul(op.kernel) {
        Some(v) => v,
        None => return Err(ConvError::Size),
    };
    let ckk = match op.chan_in.checked_mul(kk) {
        Some(v) => v,
        None => return Err(ConvError::Size),
    };
    let gstr: [usize; 4] = [ohw, hw, op.w_out, 1];
    let fstr: [usize; 4] = [ckk, kk, op.kernel, 1];
    assert(gstr@ =~= op.grad_out_strides());
    assert(fstr@ =~= op.filter_strides());
    if !op.check_grad_out(&gstr, grad_out.len()) || !op.check_filters(&fstr, filters.len())
        || !op.check_filters(&fstr, grad_filters.len())
    {
        return Err(ConvError::Layout);
    }
    proof {
        assert(is_data_plan(*op, data));
        assert(is_weight_plan(*op, weight));
        assert(filters_len == op.batch * op.block()) by {
            vstd::arithmetic::mul::lemma_mul_is_associative(op.chan_out as int, op.kernel as int, op.kernel as int);
            crate::shapes::lemma_product_prepend(op.chan_in, op.filter_cols());
            assert(seq![op.chan_in] + op.filter_cols() =~= seq![op.chan_in, op.chan_out, op.kernel, op.kernel]);
            crate::shapes::lemma_product_prepend(op.batch, seq![op.chan_in, op.chan_out, op.kernel, op.kernel]);
            assert(seq![op.batch] + seq![op.chan_in, op.chan_out, op.kernel, op.kernel] =~= op.batched_filters());
            assert(product(op.filter_cols()) == (op.chan_out * op.kernel) * op.kernel) by {
                assert(op.filter_cols().drop_last() =~= seq![op.chan_out, op.kernel]);
                lemma_product_pair(op.chan_out, op.kernel);
            }
        }
    }
    let data_ok = data.check(filters_len, patches_len);
    let weight_ok = weight.check(inp.len(), patches_len);
    let data_count = if data_ok { plan_count(&data) } else { 0 };
    if !data_ok || !weight_ok || grad_inp.len() != data_count {
        proof {
            if op.backward_ok(inp@.len() as int, grad_inp@.len() as int, filters@.len() as int, grad_filters@.len() as int, grad_out@.len() as int) {
                assert(data.fits(op.batch * op.block(), product(op.backward_patches())));
                assert(weight.fits(inp@.len() as int, product(op.backward_patches())));
            }
        }
        return Err(ConvError::Layout);
    }
    proof {
        assert forall|g: GemmPlan| is_data_plan(*op, g) implies #[trigger] g.fits(
            op.batch * op.block(),
            product(op.backward_patches()),
        ) && g.num_out() <= usize::MAX && grad_inp@.len() == g.num_out() by {
            lemma_same_plan(data, g, Seq::<T>::empty(), Seq::<T>::empty(), op.batch * op.block(), product(op.backward_patches()));
        }
        assert forall|g: GemmPlan| is_weight_plan(*op, g) implies #[trigger] g.fits(
            inp@.len() as int,
            product(op.backward_patches()),
        ) && g.num_out() <= usize::MAX by {
            lemma_same_plan(weight, g, Seq::<T>::empty(), Seq::<T>::empty(), inp@.len() as int, product(op.backward_patches()));
        }
    }
    let patches = unfold_grad_out(op, &gstr, grad_out, zero);
    let transposed = transpose_filters(op, &fstr, filters);
    assert(patches@ =~= op.grad_patches(grad_out@, zero));
    assert(transposed@ =~= op.transposed(filters@));
    let ghost gi0 = grad_inp@;
    batched_gemm(&data, &transposed, &patches, grad_inp, zero, mul_fn, add_fn);
    let weight_count = plan_count(&weight);
    let mut per_batch: Vec<T> = Vec::new();
    let mut i: usize = 0;
    while i < weight_count
        invariant
            0 <= i <= weight_count,
            per_batch@.len() == i,
            forall|j: int| 0 <= j < i ==> per_batch@[j] == zero,
        decreases weight_count - i,
    {
        per_batch.push(zero);
        i = i + 1;
    }
    let ghost pb0 = per_batch@;
    batched_gemm(&weight, inp, &patches, &mut per_batch, zero, mul_fn, add_fn);
    proof {
        assert(per_batch@.len() == op.batch * op.block()) by {
            vstd::arithmetic::mul::lemma_mul_is_associative(op.batch as int, op.chan_in as int, product(op.filter_cols()));
            vstd::arithmetic::mul::lemma_mul_is_associative(op.chan_out as int, op.kernel as int, op.kernel as int);
            assert(product(op.filter_cols()) == (op.chan_out * op.kernel) * op.kernel) by {
                assert(op.filter_cols().drop_last() =~= seq![op.chan_out, op.kernel]);
                lemma_product_pair(op.chan_out, op.kernel);
            }
        }
    }
    let ghost gf0 = grad_filters@;
    sum_filter_grads(op, &per_batch, &fstr, grad_filters, add_fn);
    proof {
        assert forall|g: GemmPlan, t: int|
            is_data_plan(*op, g) && 0 <= t < gi0.len() implies gemm_entry(
            true,
            mul_fn,
            add_fn,
            zero,
            #[trigger] g.pairs(op.transposed(filters@), op.grad_patches(grad_out@, zero), t),
            gi0[t],
            grad_inp@[t],
        ) by {
            lemma_same_plan(data, g, transposed@, patches@, 0, 0);
            assert(gemm_entry(true, mul_fn, add_fn, zero, data.pairs(transposed@, patches@, t), gi0[t], grad_inp@[t]));
        }
        let pb = per_batch@;
        assert forall|g: GemmPlan| is_weight_plan(*op, g) implies #[trigger] g.num_out() == pb.len() by {
            lemma_same_plan(weight, g, inp@, patches@, 0, 0);
        }
        assert forall|g: GemmPlan, t: int| is_weight_plan(*op, g) && 0 <= t < pb.len() implies gemm_entry(
            true,
            mul_fn,
            add_fn,
            zero,
            #[trigger] g.pairs(inp@, op.grad_patches(grad_out@, zero), t),
            zero,
            pb[t],
        ) by {
            lemma_same_plan(weight, g, inp@, patches@, 0, 0);
            assert(pb0[t] == zero);
            assert(gemm_entry(true, mul_fn, add_fn, zero, weight.pairs(inp@, patches@, t), pb0[t], pb[t]));
        }
    }
    Ok(())
}

} // verus!
