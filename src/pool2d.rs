//! Two-dimensional pooling (average, max, min) on the host: window geometry,
//! the forward fold over each window, and the backward routing of output
//! gradients into the input gradient.
use vstd::prelude::*;

verus! {

/// Static configuration of a pooling operation over a `[batch, chan, h, w]`
/// input: a square `kernel`, a `stride` and a `padding` on both spatial axes.
#[derive(Clone, Copy, Debug, PartialEq, Eq)]
pub struct Pool2DOp {
    pub kernel: usize,
    pub stride: usize,
    pub padding: usize,
    pub batch: usize,
    pub chan: usize,
    pub h_in: usize,
    pub w_in: usize,
    pub h_out: usize,
    pub w_out: usize,
}

/// Physical offset of the multi-index `(b, c, y, x)` under rank-4 strides.
pub open spec fn offset4(s: Seq<usize>, b: int, c: int, y: int, x: int) -> int {
    b * s[0] + c * s[1] + y * s[2] + x * s[3]
}

/// Input coordinate reached from output coordinate `o` at kernel position `k`;
/// negative where it falls into the padding.
pub open spec fn in_coord(o: int, k: int, stride: int, padding: int) -> int {
    o * stride + k - padding
}

/// Extent of a pooled (or convolved) spatial axis: `(dim + 2 * padding - kernel) / stride + 1`.
pub open spec fn out_dim(dim: int, kernel: int, stride: int, padding: int) -> int {
    (dim + 2 * padding - kernel) / stride + 1
}

/// The window geometry of one spatial axis can be laid out in `usize`: a
/// positive stride, a kernel that fits in the padded axis, and room for
/// `dim + 2 * padding + stride`.
pub open spec fn axis_fits(dim: int, kernel: int, stride: int, padding: int) -> bool {
    &&& stride > 0
    &&& kernel <= dim + 2 * padding
    &&& dim + 2 * padding + stride <= usize::MAX
}

/// Extent of a pooled spatial axis, or `None` where the geometry does not fit.
pub fn pool_out_dim(dim: usize, kernel: usize, stride: usize, padding: usize) -> (r: Option<usize>)
    ensures
        r is Some <==> axis_fits(dim as int, kernel as int, stride as int, padding as int),
        r is Some ==> r->Some_0 == out_dim(dim as int, kernel as int, stride as int, padding as int),
        r is Some ==> r->Some_0 * stride + kernel <= usize::MAX,
{
    if stride == 0 {
        return None;
    }
    let padded = match padding.checked_mul(2) {
        Some(p2) => match dim.checked_add(p2) {
            Some(v) => v,
            None => return None,
        },
        None => return None,
    };
    if kernel > padded || padded > usize::MAX - stride {
        return None;
    }
    let r = (padded - kernel) / stride + 1;
    proof {
        let q = (padded - kernel) as int;
        vstd::arithmetic::div_mod::lemma_fundamental_div_mod(q, stride as int);
        vstd::arithmetic::div_mod::lemma_mod_bound(q, stride as int);
        assert(((q / stride as int) + 1) * stride as int == stride as int * (q / stride as int) + stride) by (nonlinear_arith);
    }
    Some(r)
}

impl Pool2DOp {
    /// The configuration of a pooling over a `[batch, chan, h_in, w_in]`
    /// input, with the output extents that the window geometry gives; `None`
    /// where the geometry does not fit (see `axis_fits`).
    pub fn new(
        kernel: usize,
        stride: usize,
        padding: usize,
        batch: usize,
        chan: usize,
        h_in: usize,
        w_in: usize,
    ) -> (r: Option<Pool2DOp>)
        ensures
            r is Some <==> axis_fits(h_in as int, kernel as int, stride as int, padding as int)
                && axis_fits(w_in as int, kernel as int, stride as int, padding as int),
            r is Some ==> ({
                let op = r->Some_0;
                &&& op.kernel == kernel && op.stride == stride && op.padding == padding
                &&& op.batch == batch && op.chan == chan && op.h_in == h_in && op.w_in == w_in
                &&& op.h_out == out_dim(h_in as int, kernel as int, stride as int, padding as int)
                &&& op.w_out == out_dim(w_in as int, kernel as int, stride as int, padding as int)
                &&& op.coords_fit()
            }),
    {
        let h_out = match pool_out_dim(h_in, kernel, stride, padding) {
            Some(h) => h,
            None => return None,
        };
        let w_out = match pool_out_dim(w_in, kernel, stride, padding) {
            Some(w) => w,
            None => return None,
        };
        Some(Pool2DOp { kernel, stride, padding, batch, chan, h_in, w_in, h_out, w_out })
    }

    /// The window coordinates `o * stride + k` fit in a `usize` for every
    /// output position.
    pub open spec fn coords_fit(self) -> bool {
        self.h_out * self.stride + self.kernel <= usize::MAX && self.w_out * self.stride
            + self.kernel <= usize::MAX
    }

    /// Every multi-index of the input reaches an offset below `len` under `istr`.
    pub open spec fn layout_fits(self, istr: Seq<usize>, len: int) -> bool {
        &&& istr.len() == 4
        &&& forall|b: int, c: int, y: int, x: int|
            0 <= b < self.batch && 0 <= c < self.chan && 0 <= y < self.h_in && 0 <= x < self.w_in
                ==> #[trigger] offset4(istr, b, c, y, x) < len
    }

    /// The kernel position `(k1, k2)` of the window at `(oh, ow)` lies inside the input.
    pub open spec fn in_bounds(self, oh: int, ow: int, k1: int, k2: int) -> bool {
        let y = in_coord(oh, k1, self.stride as int, self.padding as int);
        let x = in_coord(ow, k2, self.stride as int, self.padding as int);
        0 <= y < self.h_in && 0 <= x < self.w_in
    }

    /// Input offsets of the in-bounds positions `(k1, k2)` with `k2 < n2`, in order.
    pub open spec fn window_row(
        self,
        istr: Seq<usize>,
        b: int,
        c: int,
        oh: int,
        ow: int,
        k1: int,
        n2: int,
    ) -> Seq<usize>
        decreases n2,
    {
        if n2 <= 0 {
            Seq::empty()
        } else {
            let rest = self.window_row(istr, b, c, oh, ow, k1, n2 - 1);
            if self.in_bounds(oh, ow, k1, n2 - 1) {
                let y = in_coord(oh, k1, self.stride as int, self.padding as int);
                let x = in_coord(ow, n2 - 1, self.stride as int, self.padding as int);
                rest.push(offset4(istr, b, c, y, x) as usize)
            } else {
                rest
            }
        }
    }

    /// Input offsets of the in-bounds positions of the first `n1` kernel rows.
    pub open spec fn window_rows(
        self,
        istr: Seq<usize>,
        b: int,
        c: int,
        oh: int,
        ow: int,
        n1: int,
    ) -> Seq<usize>
        decreases n1,
    {
        if n1 <= 0 {
            Seq::empty()
        } else {
            self.window_rows(istr, b, c, oh, ow, n1 - 1) + self.window_row(
                istr,
                b,
                c,
                oh,
                ow,
                n1 - 1,
                self.kernel as int,
            )
        }
    }

    /// Number of output slots: `batch * chan * h_out * w_out`.
    pub open spec fn num_slots(self) -> int {
        ((self.batch * self.chan) * self.h_out) * self.w_out
    }

    /// Batch index of output slot `t` in row-major `[batch, chan, h_out, w_out]` order.
    pub open spec fn slot_b(self, t: int) -> int {
        t / (self.w_out as int) / (self.h_out as int) / (self.chan as int)
    }

    /// Channel index of output slot `t`.
    pub open spec fn slot_c(self, t: int) -> int {
        (t / (self.w_out as int) / (self.h_out as int)) % (self.chan as int)
    }

    /// Output row of slot `t`.
    pub open spec fn slot_oh(self, t: int) -> int {
        (t / (self.w_out as int)) % (self.h_out as int)
    }

    /// Output column of slot `t`.
    pub open spec fn slot_ow(self, t: int) -> int {
        t % (self.w_out as int)
    }

    /// The `(input offset, output slot)` pairs that a backward pass over the
    /// first `n` output slots visits, slot by slot and within a slot in window order.
    pub open spec fn backward_pairs(self, istr: Seq<usize>, n: int) -> Seq<(usize, usize)>
        decreases n,
    {
        if n <= 0 {
            Seq::empty()
        } else {
            self.backward_pairs(istr, n - 1) + self.slot_window(istr, n - 1).map_values(
                |o: usize| (o, (n - 1) as usize),
            )
        }
    }

    /// Input offsets covered by the window of output slot `t`.
    pub open spec fn slot_window(self, istr: Seq<usize>, t: int) -> Seq<usize> {
        self.window(istr, self.slot_b(t), self.slot_c(t), self.slot_oh(t), self.slot_ow(t))
    }

    /// Input offsets covered by the window of output `(b, c, oh, ow)`, in
    /// row-major kernel order; positions in the padding are left out.
    pub open spec fn window(self, istr: Seq<usize>, b: int, c: int, oh: int, ow: int) -> Seq<usize> {
        self.window_rows(istr, b, c, oh, ow, self.kernel as int)
    }
}

/// Input coordinate for output coordinate `o` at kernel position `k`, or
/// `None` where it falls into the padding.
pub fn window_coord(o: usize, k: usize, stride: usize, padding: usize) -> (r: Option<usize>)
    requires
        o * stride + k <= usize::MAX,
    ensures
        r is Some <==> in_coord(o as int, k as int, stride as int, padding as int) >= 0,
        r is Some ==> r->Some_0 == in_coord(o as int, k as int, stride as int, padding as int),
{
    (o * stride + k).checked_sub(padding)
}

/// Offsets, in an input buffer of `inp_len` elements laid out by `istr`, of
/// the positions covered by the window of output `(b, c, oh, ow)`.
pub fn window_inputs(
    op: &Pool2DOp,
    istr: &[usize; 4],
    inp_len: usize,
    b: usize,
    c: usize,
    oh: usize,
    ow: usize,
) -> (r: Vec<usize>)
    requires
        op.coords_fit(),
        op.layout_fits(istr@, inp_len as int),
        b < op.batch,
        c < op.chan,
        oh < op.h_out,
        ow < op.w_out,
    ensures
        r@ == op.window(istr@, b as int, c as int, oh as int, ow as int),
        forall|j: int| 0 <= j < r@.len() ==> r@[j] < inp_len,
{
    let mut r: Vec<usize> = Vec::new();
    proof {
        vstd::arithmetic::mul::lemma_mul_inequality(oh as int, op.h_out as int, op.stride as int);
        vstd::arithmetic::mul::lemma_mul_inequality(ow as int, op.w_out as int, op.stride as int);
        vstd::arithmetic::mul::lemma_mul_nonnegative(b as int, istr@[0] as int);
        vstd::arithmetic::mul::lemma_mul_nonnegative(c as int, istr@[1] as int);
    }
    let mut k1: usize = 0;
    while k1 < op.kernel
        invariant
            op.coords_fit(),
            op.layout_fits(istr@, inp_len as int),
            b < op.batch,
            c < op.chan,
            oh < op.h_out,
            ow < op.w_out,
            oh * op.stride <= op.h_out * op.stride,
            ow * op.stride <= op.w_out * op.stride,
            b * istr@[0] >= 0,
            c * istr@[1] >= 0,
            0 <= k1 <= op.kernel,
            r@ == op.window_rows(istr@, b as int, c as int, oh as int, ow as int, k1 as int),
            forall|j: int| 0 <= j < r@.len() ==> r@[j] < inp_len,
        decreases op.kernel - k1,
    {
        let y = window_coord(oh, k1, op.stride, op.padding);
        let ghost row_start = r@;
        let mut k2: usize = 0;
        while k2 < op.kernel
            invariant
                op.coords_fit(),
                op.layout_fits(istr@, inp_len as int),
                b < op.batch,
                c < op.chan,
                oh < op.h_out,
                ow < op.w_out,
                oh * op.stride <= op.h_out * op.stride,
                ow * op.stride <= op.w_out * op.stride,
                b * istr@[0] >= 0,
                c * istr@[1] >= 0,
                0 <= k1 < op.kernel,
                0 <= k2 <= op.kernel,
                y is Some <==> in_coord(oh as int, k1 as int, op.stride as int, op.padding as int) >= 0,
                y is Some ==> y->Some_0 == in_coord(oh as int, k1 as int, op.stride as int, op.padding as int),
                row_start == op.window_rows(istr@, b as int, c as int, oh as int, ow as int, k1 as int),
                r@ == row_start + op.window_row(istr@, b as int, c as int, oh as int, ow as int, k1 as int, k2 as int),
                forall|j: int| 0 <= j < r@.len() ==> r@[j] < inp_len,
            decreases op.kernel - k2,
        {
            let x = window_coord(ow, k2, op.stride, op.padding);
            let ghost before = r@;
            if let (Some(y), Some(x)) = (y, x) {
                if y < op.h_in && x < op.w_in {
                    proof {
                        assert(offset4(istr@, b as int, c as int, y as int, x as int) < inp_len);
                        vstd::arithmetic::mul::lemma_mul_nonnegative(y as int, istr@[2] as int);
                        vstd::arithmetic::mul::lemma_mul_nonnegative(x as int, istr@[3] as int);
                    }
                    let off = b * istr[0] + c * istr[1] + y * istr[2] + x * istr[3];
                    r.push(off);
                }
            }
            proof {
                let row = op.window_row(istr@, b as int, c as int, oh as int, ow as int, k1 as int, k2 as int);
                if r@.len() > before.len() {
                    assert(row_start + row.push(r@.last()) =~= (row_start + row).push(r@.last()));
                }
            }
            k2 = k2 + 1;
        }
        k1 = k1 + 1;
    }
    r
}

/// An index below `a * d` divided by `d` is below `a`.
pub proof fn lemma_div_below(x: int, a: int, d: int)
    requires
        0 <= x < a * d,
        d > 0,
    ensures
        0 <= x / d < a,
{
    vstd::arithmetic::div_mod::lemma_fundamental_div_mod(x, d);
    vstd::arithmetic::div_mod::lemma_mod_bound(x, d);
    vstd::arithmetic::div_mod::lemma_div_pos_is_pos(x, d);
    if x / d >= a {
        vstd::arithmetic::mul::lemma_mul_inequality(a, x / d, d);
        vstd::arithmetic::mul::lemma_mul_is_commutative(d, x / d);
    }
}

/// The multi-index `(b, c, oh, ow)` of output slot `t`, counting slots in
/// row-major `[batch, chan, h_out, w_out]` order.
pub fn slot_coords(op: &Pool2DOp, t: usize) -> (r: (usize, usize, usize, usize))
    requires
        t < op.num_slots(),
    ensures
        r.0 == op.slot_b(t as int) && r.0 < op.batch,
        r.1 == op.slot_c(t as int) && r.1 < op.chan,
        r.2 == op.slot_oh(t as int) && r.2 < op.h_out,
        r.3 == op.slot_ow(t as int) && r.3 < op.w_out,
{
    proof {
        let bb = op.batch as int;
        let cc = op.chan as int;
        let hh = op.h_out as int;
        let ww = op.w_out as int;
        if ww == 0 || hh == 0 || cc == 0 {
            assert(((bb * cc) * hh) * ww == 0) by (nonlinear_arith)
                requires
                    ww == 0 || hh == 0 || cc == 0,
            ;
        }
        lemma_div_below(t as int, (bb * cc) * hh, ww);
        lemma_div_below(t as int / ww, bb * cc, hh);
        lemma_div_below(t as int / ww / hh, bb, cc);
        vstd::arithmetic::div_mod::lemma_mod_bound(t as int, ww);
        vstd::arithmetic::div_mod::lemma_mod_bound(t as int / ww, hh);
        vstd::arithmetic::div_mod::lemma_mod_bound(t as int / ww / hh, cc);
    }
    let q1 = t / op.w_out;
    let q2 = q1 / op.h_out;
    (q2 / op.chan, q2 % op.chan, q1 % op.h_out, t % op.w_out)
}

/// Number of output slots of `op`.
pub fn slot_count(op: &Pool2DOp) -> (r: usize)
    requires
        op.num_slots() <= usize::MAX,
    ensures
        r == op.num_slots(),
{
    if op.batch == 0 || op.chan == 0 || op.h_out == 0 || op.w_out == 0 {
        proof {
            let (bb, cc, hh, ww) = (op.batch as int, op.chan as int, op.h_out as int, op.w_out as int);
            assert(((bb * cc) * hh) * ww == 0) by (nonlinear_arith)
                requires
                    bb == 0 || cc == 0 || hh == 0 || ww == 0,
            ;
        }
        0
    } else {
        proof {
            let (bb, cc, hh, ww) = (op.batch as int, op.chan as int, op.h_out as int, op.w_out as int);
            assert(bb * cc <= (bb * cc) * hh <= ((bb * cc) * hh) * ww) by (nonlinear_arith)
                requires
                    bb >= 1 && cc >= 1 && hh >= 1 && ww >= 1,
            ;
        }
        op.batch * op.chan * op.h_out * op.w_out
    }
}

/// `accs` traces a fold of `vals` into `init` with `combine`, front to back:
/// it starts at `init` and each next accumulator is what one call
/// `combine(accumulator, value)` returned.
pub open spec fn fold_trace<T, F: Fn(T, T) -> T>(combine: F, init: T, vals: Seq<T>, accs: Seq<T>) -> bool {
    &&& accs.len() == vals.len() + 1
    &&& accs[0] == init
    &&& forall|k: int|
        0 <= k < vals.len() ==> call_ensures(combine, (accs[k], vals[k]), #[trigger] accs[k + 1])
}

/// `r` is what `finish` returned on the last accumulator of some fold of
/// `vals` into `init` with `combine`.
pub open spec fn pooled<T, F: Fn(T, T) -> T, G: Fn(T) -> T>(
    combine: F,
    finish: G,
    init: T,
    vals: Seq<T>,
    r: T,
) -> bool {
    exists|accs: Seq<T>|
        #[trigger] fold_trace(combine, init, vals, accs) && call_ensures(finish, (accs.last(),), r)
}

/// The input values under a sequence of offsets.
pub open spec fn gather<T>(inp: Seq<T>, offsets: Seq<usize>) -> Seq<T> {
    offsets.map_values(|o: usize| inp[o as int])
}

/// Forward pass of a pooling: for every output slot, in row-major
/// `[batch, chan, h_out, w_out]` order, folds the input values of its window
/// into `init` with `combine` and applies `finish` to the result.
///
/// Max pooling is `init = -inf`, `combine = max`, `finish = identity`; min
/// pooling `init = +inf`, `combine = min`; average pooling `init = 0`,
/// `combine = +` and `finish` divides by `kernel * kernel`, the full kernel
/// area, whatever part of the window falls into the padding.
pub fn pool_forward<T: Copy, F: Fn(T, T) -> T, G: Fn(T) -> T>(
    op: &Pool2DOp,
    istr: &[usize; 4],
    inp: &Vec<T>,
    init: T,
    combine: F,
    finish: G,
) -> (out: Vec<T>)
    requires
        op.coords_fit(),
        op.layout_fits(istr@, inp@.len() as int),
        op.num_slots() <= usize::MAX,
        forall|a: T, v: T| call_requires(combine, (a, v)),
        forall|a: T| call_requires(finish, (a,)),
    ensures
        out@.len() == op.num_slots(),
        forall|t: int|
            0 <= t < op.num_slots() ==> pooled(
                combine,
                finish,
                init,
                gather(inp@, op.slot_window(istr@, t)),
                #[trigger] out@[t],
            ),
{
    let total = slot_count(op);
    let mut out: Vec<T> = Vec::new();
    let mut t: usize = 0;
    while t < total
        invariant
            total == op.num_slots(),
            op.coords_fit(),
            op.layout_fits(istr@, inp@.len() as int),
            forall|a: T, v: T| call_requires(combine, (a, v)),
            forall|a: T| call_requires(finish, (a,)),
            0 <= t <= total,
            out@.len() == t,
            forall|s: int|
                0 <= s < t ==> pooled(
                    combine,
                    finish,
                    init,
                    gather(inp@, op.slot_window(istr@, s)),
                    #[trigger] out@[s],
                ),
        decreases total - t,
    {
        let (b, c, oh, ow) = slot_coords(op, t);
        let win = window_inputs(op, istr, inp.len(), b, c, oh, ow);
        let ghost vals = gather(inp@, win@);
        let mut acc = init;
        let ghost mut accs: Seq<T> = seq![init];
        let mut j: usize = 0;
        while j < win.len()
            invariant
                vals == gather(inp@, win@),
                forall|k: int| 0 <= k < win@.len() ==> win@[k] < inp@.len(),
                forall|a: T, v: T| call_requires(combine, (a, v)),
                0 <= j <= win@.len(),
                fold_trace(combine, init, vals.take(j as int), accs),
                accs.last() == acc,
            decreases win.len() - j,
        {
            let v = inp[win[j]];
            let ghost prev = acc;
            acc = combine(acc, v);
            proof {
                let old_accs = accs;
                accs = accs.push(acc);
                assert(vals.take(j + 1)[j as int] == v);
                assert forall|k: int| 0 <= k < j + 1 implies call_ensures(
                    combine,
                    (accs[k], vals.take(j + 1)[k]),
                    #[trigger] accs[k + 1],
                ) by {
                    if k < j {
                        assert(vals.take(j + 1)[k] == vals.take(j as int)[k]);
                        assert(accs[k + 1] == old_accs[k + 1]);
                    }
                }
            }
            j = j + 1;
        }
        assert(vals.take(win@.len() as int) =~= vals);
        let r = finish(acc);
        out.push(r);
        t = t + 1;
    }
    out
}

/// `states` traces the gradient buffer through `pairs`: each next state is
/// the previous one with entry `i` replaced by what one call
/// `step(grad_inp[i], inp[i], out[t], grad_out[t])` returned, for the pair `(i, t)`.
pub open spec fn route_trace<T, S: Fn(T, T, T, T) -> T>(
    step: S,
    inp: Seq<T>,
    out: Seq<T>,
    grad_out: Seq<T>,
    pairs: Seq<(usize, usize)>,
    states: Seq<Seq<T>>,
) -> bool {
    &&& states.len() == pairs.len() + 1
    &&& forall|k: int|
        0 <= k < pairs.len() ==> {
            let (i, t) = #[trigger] pairs[k];
            &&& states[k + 1] == states[k].update(i as int, states[k + 1][i as int])
            &&& call_ensures(
                step,
                (states[k][i as int], inp[i as int], out[t as int], grad_out[t as int]),
                states[k + 1][i as int],
            )
        }
}

/// Routing `pairs` through `step`, from the gradient buffer `g0`, can end in `g1`.
pub open spec fn routed<T, S: Fn(T, T, T, T) -> T>(
    step: S,
    inp: Seq<T>,
    out: Seq<T>,
    grad_out: Seq<T>,
    g0: Seq<T>,
    pairs: Seq<(usize, usize)>,
    g1: Seq<T>,
) -> bool {
    exists|states: Seq<Seq<T>>|
        #[trigger] route_trace(step, inp, out, grad_out, pairs, states) && states[0] == g0
            && states.last() == g1
}

/// Backward pass of a pooling: for every output slot `t`, in row-major order,
/// and every input offset `i` of its window, in window order, sets
/// `grad_inp[i] = step(grad_inp[i], inp[i], out[t], grad_out[t])`.
///
/// The step accumulates, never overwrites. For max and min pooling it adds
/// `grad_out[t]` where `inp[i] == out[t]`, so each of several tied positions
/// receives the whole upstream gradient; for average pooling it adds
/// `grad_out[t] / (kernel * kernel)` at every in-bounds position.
pub fn pool_backward<T: Copy, S: Fn(T, T, T, T) -> T>(
    op: &Pool2DOp,
    istr: &[usize; 4],
    inp: &Vec<T>,
    out: &Vec<T>,
    grad_out: &Vec<T>,
    grad_inp: &mut Vec<T>,
    step: S,
)
    requires
        op.coords_fit(),
        op.layout_fits(istr@, inp@.len() as int),
        op.num_slots() <= usize::MAX,
        old(grad_inp)@.len() == inp@.len(),
        out@.len() == op.num_slots(),
        grad_out@.len() == op.num_slots(),
        forall|g: T, x: T, o: T, go: T| call_requires(step, (g, x, o, go)),
    ensures
        final(grad_inp)@.len() == inp@.len(),
        routed(
            step,
            inp@,
            out@,
            grad_out@,
            old(grad_inp)@,
            op.backward_pairs(istr@, op.num_slots()),
            final(grad_inp)@,
        ),
{
    let total = slot_count(op);
    let ghost g0 = grad_inp@;
    let ghost mut states: Seq<Seq<T>> = seq![g0];
    let mut t: usize = 0;
    assert(op.backward_pairs(istr@, 0) =~= Seq::<(usize, usize)>::empty());
    while t < total
        invariant
            total == op.num_slots(),
            op.coords_fit(),
            op.layout_fits(istr@, inp@.len() as int),
            out@.len() == total,
            grad_out@.len() == total,
            grad_inp@.len() == inp@.len(),
            forall|g: T, x: T, o: T, go: T| call_requires(step, (g, x, o, go)),
            0 <= t <= total,
            route_trace(step, inp@, out@, grad_out@, op.backward_pairs(istr@, t as int), states),
            states[0] == g0,
            states.last() == grad_inp@,
        decreases total - t,
    {
        let (b, c, oh, ow) = slot_coords(op, t);
        let win = window_inputs(op, istr, inp.len(), b, c, oh, ow);
        let ghost before = op.backward_pairs(istr@, t as int);
        let ghost tagged = win@.map_values(|o: usize| (o, t));
        let go = grad_out[t];
        let o = out[t];
        let mut j: usize = 0;
        assert(before + tagged.take(0) =~= before);
        while j < win.len()
            invariant
                total == op.num_slots(),
                t < total,
                out@.len() == total,
                grad_out@.len() == total,
                go == grad_out@[t as int],
                o == out@[t as int],
                grad_inp@.len() == inp@.len(),
                forall|k: int| 0 <= k < win@.len() ==> win@[k] < inp@.len(),
                forall|g: T, x: T, o: T, go: T| call_requires(step, (g, x, o, go)),
                tagged == win@.map_values(|o: usize| (o, t)),
                0 <= j <= win@.len(),
                route_trace(step, inp@, out@, grad_out@, before + tagged.take(j as int), states),
                states[0] == g0,
                states.last() == grad_inp@,
            decreases win.len() - j,
        {
            let i = win[j];
            let nv = step(grad_inp[i], inp[i], o, go);
            let ghost prev = grad_inp@;
            grad_inp.set(i, nv);
            proof {
                let old_pairs = before + tagged.take(j as int);
                let pairs = before + tagged.take(j + 1);
                assert(pairs =~= old_pairs.push((i, t)));
                let old_states = states;
                states = states.push(grad_inp@);
                assert(grad_inp@ == prev.update(i as int, grad_inp@[i as int]));
                assert forall|k: int| 0 <= k < pairs.len() implies {
                    let (i, t) = #[trigger] pairs[k];
                    &&& states[k + 1] == states[k].update(i as int, states[k + 1][i as int])
                    &&& call_ensures(
                        step,
                        (states[k][i as int], inp@[i as int], out@[t as int], grad_out@[t as int]),
                        states[k + 1][i as int],
                    )
                } by {
                    if k < old_pairs.len() {
                        assert(pairs[k] == old_pairs[k]);
                        assert(states[k] == old_states[k]);
                        assert(states[k + 1] == old_states[k + 1]);
                    }
                }
            }
            j = j + 1;
        }
        proof {
            assert(tagged.take(win@.len() as int) =~= tagged);
            assert(op.backward_pairs(istr@, t + 1) =~= before + tagged);
        }
        t = t + 1;
    }
}

/// The backward pass visits each input position of each window together with
/// that window's output slot: for every slot `t < n` and every offset `i` of
/// its window, `(i, t)` is among the first `n` slots' pairs. With the step of
/// max or min pooling, each position tied at the extremum thus receives the
/// whole `grad_out[t]`, not a share of it.
pub proof fn lemma_backward_visits_window(op: Pool2DOp, istr: Seq<usize>, n: int, t: int, j: int)
    requires
        0 <= t < n,
        0 <= j < op.slot_window(istr, t).len(),
    ensures
        op.backward_pairs(istr, n).contains((op.slot_window(istr, t)[j], t as usize)),
    decreases n,
{
    let prefix = op.backward_pairs(istr, n - 1);
    let tagged = op.slot_window(istr, n - 1).map_values(|o: usize| (o, (n - 1) as usize));
    assert(op.backward_pairs(istr, n) == prefix + tagged);
    if t < n - 1 {
        lemma_backward_visits_window(op, istr, n - 1, t, j);
        let idx = choose|idx: int| 0 <= idx < prefix.len() && prefix[idx] == (op.slot_window(istr, t)[j], t as usize);
        assert((prefix + tagged)[idx] == prefix[idx]);
    } else {
        assert((prefix + tagged)[prefix.len() + j] == tagged[j]);
    }
}

/// Every multi-index below `ext` reaches an offset below `len` under `s`.
pub open spec fn fits4(ext: Seq<usize>, s: Seq<usize>, len: int) -> bool {
    forall|b: int, c: int, y: int, x: int|
        0 <= b < ext[0] && 0 <= c < ext[1] && 0 <= y < ext[2] && 0 <= x < ext[3] ==> #[trigger] offset4(
            s,
            b,
            c,
            y,
            x,
        ) < len
}

/// Whether every multi-index below the extents `ext` reaches an offset
/// below `len` under the strides `istr`.
pub fn check_fits4(ext: &[usize; 4], istr: &[usize; 4], len: usize) -> (r: bool)
    ensures
        r == fits4(ext@, istr@, len as int),
{
    if ext[0] == 0 || ext[1] == 0 || ext[2] == 0 || ext[3] == 0 {
        return true;
    }
    let (mb, mc, my, mx) = (ext[0] - 1, ext[1] - 1, ext[2] - 1, ext[3] - 1);
    let ghost top = offset4(istr@, mb as int, mc as int, my as int, mx as int);
    proof {
        vstd::arithmetic::mul::lemma_mul_nonnegative(mb as int, istr@[0] as int);
        vstd::arithmetic::mul::lemma_mul_nonnegative(mc as int, istr@[1] as int);
        vstd::arithmetic::mul::lemma_mul_nonnegative(my as int, istr@[2] as int);
        vstd::arithmetic::mul::lemma_mul_nonnegative(mx as int, istr@[3] as int);
    }
    let max = match (
        mb.checked_mul(istr[0]),
        mc.checked_mul(istr[1]),
        my.checked_mul(istr[2]),
        mx.checked_mul(istr[3]),
    ) {
        (Some(a), Some(b), Some(c), Some(d)) => match a.checked_add(b) {
            Some(ab) => match ab.checked_add(c) {
                Some(abc) => abc.checked_add(d),
                None => None,
            },
            None => None,
        },
        _ => None,
    };
    match max {
        Some(m) => {
            proof {
                if m < len {
                    assert forall|b: int, c: int, y: int, x: int|
                        0 <= b < ext@[0] && 0 <= c < ext@[1] && 0 <= y < ext@[2] && 0 <= x
                            < ext@[3] implies #[trigger] offset4(istr@, b, c, y, x) < len by {
                        vstd::arithmetic::mul::lemma_mul_inequality(b, mb as int, istr@[0] as int);
                        vstd::arithmetic::mul::lemma_mul_inequality(c, mc as int, istr@[1] as int);
                        vstd::arithmetic::mul::lemma_mul_inequality(y, my as int, istr@[2] as int);
                        vstd::arithmetic::mul::lemma_mul_inequality(x, mx as int, istr@[3] as int);
                    }
                } else {
                    assert(offset4(istr@, mb as int, mc as int, my as int, mx as int) >= len);
                }
            }
            m < len
        },
        None => {
            assert(top > usize::MAX);
            assert(offset4(istr@, mb as int, mc as int, my as int, mx as int) >= len);
            false
        },
    }
}

impl Pool2DOp {
    /// Whether the pooling kernels can run on this configuration over an
    /// input of `inp_len` elements laid out by `istr`: window coordinates and
    /// the slot count fit in a `usize`, and every input index lands inside
    /// the buffer.
    pub fn fits(&self, istr: &[usize; 4], inp_len: usize) -> (r: bool)
        ensures
            r == (self.coords_fit() && self.layout_fits(istr@, inp_len as int) && self.num_slots()
                <= usize::MAX),
    {
        let coords = match (self.h_out.checked_mul(self.stride), self.w_out.checked_mul(self.stride)) {
            (Some(h), Some(w)) => h.checked_add(self.kernel).is_some() && w.checked_add(
                self.kernel,
            ).is_some(),
            _ => false,
        };
        let slots = if self.batch == 0 || self.chan == 0 || self.h_out == 0 || self.w_out == 0 {
            proof {
                let (bb, cc, hh, ww) = (self.batch as int, self.chan as int, self.h_out as int, self.w_out as int);
                assert(((bb * cc) * hh) * ww == 0) by (nonlinear_arith)
                    requires
                        bb == 0 || cc == 0 || hh == 0 || ww == 0,
                ;
            }
            true
        } else {
            proof {
                let (bb, cc, hh, ww) = (self.batch as int, self.chan as int, self.h_out as int, self.w_out as int);
                assert(bb * cc <= (bb * cc) * hh <= ((bb * cc) * hh) * ww) by (nonlinear_arith)
                    requires
                        bb >= 1 && cc >= 1 && hh >= 1 && ww >= 1,
                ;
            }
            match self.batch.checked_mul(self.chan) {
                Some(bc) => match bc.checked_mul(self.h_out) {
                    Some(bch) => bch.checked_mul(self.w_out).is_some(),
                    None => false,
                },
                None => false,
            }
        };
        coords && slots && check_fits4(&[self.batch, self.chan, self.h_in, self.w_in], istr, inp_len)
    }
}

proof fn lemma_trace_untouched<T, S: Fn(T, T, T, T) -> T>(
    step: S,
    inp: Seq<T>,
    out: Seq<T>,
    grad_out: Seq<T>,
    pairs: Seq<(usize, usize)>,
    states: Seq<Seq<T>>,
    i: int,
    from: int,
    to: int,
)
    requires
        route_trace(step, inp, out, grad_out, pairs, states),
        0 <= from <= to <= pairs.len(),
        0 <= i < states[from].len(),
        forall|j: int| from <= j < to ==> (#[trigger] pairs[j]).0 != i && pairs[j].0 < states[from].len(),
    ensures
        states[to].len() == states[from].len(),
        states[to][i] == states[from][i],
    decreases to - from,
{
    if to > from {
        lemma_trace_untouched(step, inp, out, grad_out, pairs, states, i, from, to - 1);
        let (p, t) = pairs[to - 1];
        assert(states[to] == states[to - 1].update(p as int, states[to][p as int]));
    }
}

/// A position that a backward pass visits exactly once, with output slot
/// `t`, ends as one call of the step on its old gradient: `g1[i]` is what
/// `step(g0[i], inp[i], out[t], grad_out[t])` returned. With the step of max
/// or min pooling, each position tied at its window's extremum and covered by
/// no other window gains the whole `grad_out[t]`.
pub proof fn lemma_routed_single_visit<T, S: Fn(T, T, T, T) -> T>(
    step: S,
    inp: Seq<T>,
    out: Seq<T>,
    grad_out: Seq<T>,
    g0: Seq<T>,
    pairs: Seq<(usize, usize)>,
    g1: Seq<T>,
    k: int,
)
    requires
        routed(step, inp, out, grad_out, g0, pairs, g1),
        0 <= k < pairs.len(),
        forall|j: int| 0 <= j < pairs.len() ==> (#[trigger] pairs[j]).0 < g0.len(),
        forall|j: int| 0 <= j < pairs.len() && j != k ==> (#[trigger] pairs[j]).0 != pairs[k].0,
    ensures
        call_ensures(
            step,
            (g0[pairs[k].0 as int], inp[pairs[k].0 as int], out[pairs[k].1 as int], grad_out[pairs[k].1 as int]),
            g1[pairs[k].0 as int],
        ),
{
    let states = choose|states: Seq<Seq<T>>|
        #[trigger] route_trace(step, inp, out, grad_out, pairs, states) && states[0] == g0 && states.last() == g1;
    let i = pairs[k].0 as int;
    lemma_trace_untouched(step, inp, out, grad_out, pairs, states, i, 0, k);
    let (p, t) = pairs[k];
    assert(states[k + 1] == states[k].update(i, states[k + 1][i]));
    assert(states[k + 1].len() == g0.len());
    lemma_trace_untouched(step, inp, out, grad_out, pairs, states, i, k + 1, pairs.len() as int);
}

} // verus!
