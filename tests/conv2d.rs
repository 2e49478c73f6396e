use dfdx::conv2d::{
    backward_gemms, batched_gemm, conv2d_backward, conv2d_forward, forward_gemm, sum_filter_grads, transpose_filters, unfold_grad_out, unfold_input,
    Conv2DOp, ConvError, GemmPlan,
};

fn op() -> Conv2DOp {
    Conv2DOp::new(3, 1, 1, 2, 3, 4, 5, 5).unwrap()
}

#[test]
fn conv_output_extents_follow_the_window_geometry() {
    let o = op();
    assert_eq!((o.h_out, o.w_out), (5, 5));
    let s = Conv2DOp::new(3, 2, 0, 1, 1, 1, 7, 9).unwrap();
    assert_eq!((s.h_out, s.w_out), (3, 4));
    assert!(Conv2DOp::new(3, 0, 0, 1, 1, 1, 7, 9).is_none());
    assert!(Conv2DOp::new(5, 1, 0, 1, 1, 1, 4, 9).is_none());
}

#[test]
fn forward_product_shapes() {
    let (g, patches) = forward_gemm(&op()).unwrap();
    assert_eq!(patches, 2 * 27 * 25);
    assert_eq!((g.batch, g.m, g.k, g.n), (2, 4, 27, 25));
    assert_eq!(g.lhs_strides, [0, 27, 1]);
    assert_eq!(g.rhs_strides, [675, 25, 1]);
    assert_eq!(g.out_strides, [100, 25, 1]);
    assert!(!g.accumulate);
}

#[test]
fn backward_product_shapes() {
    let (data, weight, patches, filters) = backward_gemms(&op()).unwrap();
    assert_eq!(patches, 2 * 4 * 9 * 25);
    assert_eq!(filters, 2 * 3 * 4 * 9);
    assert_eq!((data.batch, data.m, data.k, data.n), (2, 3, 36, 25));
    assert_eq!(data.lhs_strides, [108, 36, 1]);
    assert_eq!(data.rhs_strides, [900, 25, 1]);
    assert_eq!(data.out_strides, [75, 25, 1]);
    assert!(data.accumulate);
    assert_eq!((weight.batch, weight.m, weight.k, weight.n), (2, 3, 25, 36));
    assert_eq!(weight.lhs_strides, [75, 25, 1]);
    assert_eq!(weight.rhs_strides, [900, 1, 25]);
    assert_eq!(weight.out_strides, [108, 36, 1]);
    assert!(weight.accumulate);
}

#[test]
fn products_that_overflow_are_refused() {
    let mut o = op();
    o.batch = usize::MAX;
    assert!(forward_gemm(&o).is_none());
    assert!(backward_gemms(&o).is_none());
}

fn conv_forward(o: &Conv2DOp, inp: &Vec<f32>, weights: &Vec<f32>) -> Vec<f32> {
    let istr = [o.chan_in * o.h_in * o.w_in, o.h_in * o.w_in, o.w_in, 1];
    let patches = unfold_input(o, &istr, inp, 0.0);
    let (g, len) = forward_gemm(o).unwrap();
    assert_eq!(patches.len(), len);
    let mut out = vec![0.0f32; o.batch * o.chan_out * o.h_out * o.w_out];
    batched_gemm(&g, weights, &patches, &mut out, 0.0, |a: f32, b: f32| a * b, |a: f32, b: f32| a + b);
    out
}

#[test]
fn unfold_lays_out_windows_with_zero_padding() {
    let o = Conv2DOp::new(2, 1, 1, 1, 1, 1, 1, 1).unwrap();
    assert_eq!((o.h_out, o.w_out), (2, 2));
    let patches = unfold_input(&o, &[1, 1, 1, 1], &vec![5.0f32], 0.0);
    assert_eq!(patches, vec![0.0, 0.0, 0.0, 5.0, 0.0, 0.0, 5.0, 0.0, 0.0, 5.0, 0.0, 0.0, 5.0, 0.0, 0.0, 0.0]);
}

#[test]
fn conv_forward_matches_direct_convolution() {
    let o = Conv2DOp::new(2, 1, 0, 1, 1, 1, 3, 3).unwrap();
    let inp: Vec<f32> = (1..=9).map(|v| v as f32).collect();
    assert_eq!(conv_forward(&o, &inp, &vec![1.0, 0.0, 0.0, 1.0]), vec![6.0, 8.0, 12.0, 14.0]);
}

#[test]
fn conv_forward_with_padding_and_channels() {
    let o = Conv2DOp::new(3, 1, 1, 1, 1, 1, 2, 2).unwrap();
    let centre = vec![0.0, 0.0, 0.0, 0.0, 1.0, 0.0, 0.0, 0.0, 0.0];
    assert_eq!(conv_forward(&o, &vec![1.0, 2.0, 3.0, 4.0], &centre), vec![1.0, 2.0, 3.0, 4.0]);
    let ones = vec![1.0; 9];
    assert_eq!(conv_forward(&o, &vec![1.0, 2.0, 3.0, 4.0], &ones), vec![10.0; 4]);

    let mix = Conv2DOp::new(1, 1, 0, 2, 2, 2, 1, 2).unwrap();
    let inp = vec![1.0, 2.0, 10.0, 20.0, 3.0, 4.0, 30.0, 40.0];
    let weights = vec![2.0, 1.0, 0.0, -1.0];
    assert_eq!(conv_forward(&mix, &inp, &weights), vec![12.0, 24.0, -10.0, -20.0, 36.0, 48.0, -30.0, -40.0]);
}

#[test]
fn gemm_accumulates_where_the_plan_says_so() {
    let g = GemmPlan {
        batch: 1,
        m: 1,
        k: 2,
        n: 2,
        lhs_strides: [0, 2, 1],
        rhs_strides: [4, 2, 1],
        out_strides: [2, 2, 1],
        accumulate: true,
    };
    let mut out = vec![100.0f32, 200.0];
    batched_gemm(&g, &vec![1.0, 2.0], &vec![3.0, 4.0, 5.0, 6.0], &mut out, 0.0, |a: f32, b: f32| a * b, |a: f32, b: f32| a + b);
    assert_eq!(out, vec![113.0, 216.0]);
}

fn forward64(o: &Conv2DOp, inp: &Vec<f64>, weights: &Vec<f64>) -> Vec<f64> {
    let istr = [o.chan_in * o.h_in * o.w_in, o.h_in * o.w_in, o.w_in, 1];
    let patches = unfold_input(o, &istr, inp, 0.0);
    let (g, _) = forward_gemm(o).unwrap();
    let mut out = vec![0.0f64; o.batch * o.chan_out * o.h_out * o.w_out];
    batched_gemm(&g, weights, &patches, &mut out, 0.0, |a: f64, b: f64| a * b, |a: f64, b: f64| a + b);
    out
}

fn backward64(o: &Conv2DOp, inp: &Vec<f64>, weights: &Vec<f64>, grad_out: &Vec<f64>) -> (Vec<f64>, Vec<f64>) {
    let gstr = [o.chan_out * o.h_out * o.w_out, o.h_out * o.w_out, o.w_out, 1];
    let fstr = [o.chan_in * o.kernel * o.kernel, o.kernel * o.kernel, o.kernel, 1];
    let (data, weight, patches_len, filters_len) = backward_gemms(o).unwrap();
    let patches = unfold_grad_out(o, &gstr, grad_out, 0.0);
    assert_eq!(patches.len(), patches_len);
    let filters = transpose_filters(o, &fstr, weights);
    assert_eq!(filters.len(), filters_len);
    let mul = |a: f64, b: f64| a * b;
    let add = |a: f64, b: f64| a + b;
    let mut grad_inp = vec![0.0f64; inp.len()];
    batched_gemm(&data, &filters, &patches, &mut grad_inp, 0.0, mul, add);
    let mut per_batch = vec![0.0f64; filters_len];
    batched_gemm(&weight, inp, &patches, &mut per_batch, 0.0, mul, add);
    let mut grad_w = vec![0.0f64; weights.len()];
    sum_filter_grads(o, &per_batch, &fstr, &mut grad_w, add);
    (grad_inp, grad_w)
}

fn loss(o: &Conv2DOp, inp: &Vec<f64>, weights: &Vec<f64>, grad_out: &Vec<f64>) -> f64 {
    forward64(o, inp, weights).iter().zip(grad_out).map(|(a, b)| a * b).sum()
}

fn values(n: usize, seed: usize) -> Vec<f64> {
    (0..n).map(|i| ((i * 37 + seed * 11) % 13) as f64 / 4.0 - 1.5).collect()
}

#[test]
fn conv_backward_matches_finite_differences() {
    let o = Conv2DOp::new(3, 2, 1, 2, 2, 3, 4, 5).unwrap();
    assert_eq!((o.h_out, o.w_out), (2, 3));
    let inp = values(2 * 2 * 4 * 5, 1);
    let weights = values(3 * 2 * 3 * 3, 2);
    let grad_out = values(2 * 3 * 2 * 3, 3);
    let (grad_inp, grad_w) = backward64(&o, &inp, &weights, &grad_out);
    let h = 1e-3;
    for i in 0..inp.len() {
        let mut plus = inp.clone();
        let mut minus = inp.clone();
        plus[i] += h;
        minus[i] -= h;
        let numeric = (loss(&o, &plus, &weights, &grad_out) - loss(&o, &minus, &weights, &grad_out)) / (2.0 * h);
        assert!((numeric - grad_inp[i]).abs() < 1e-6 * (1.0 + numeric.abs()), "input {}: {} vs {}", i, numeric, grad_inp[i]);
    }
    for i in 0..weights.len() {
        let mut plus = weights.clone();
        let mut minus = weights.clone();
        plus[i] += h;
        minus[i] -= h;
        let numeric = (loss(&o, &inp, &plus, &grad_out) - loss(&o, &inp, &minus, &grad_out)) / (2.0 * h);
        assert!((numeric - grad_w[i]).abs() < 1e-6 * (1.0 + numeric.abs()), "weight {}: {} vs {}", i, numeric, grad_w[i]);
    }
}

#[test]
fn conv_backward_accumulates_into_existing_gradients() {
    let o = Conv2DOp::new(1, 1, 0, 1, 1, 1, 1, 2).unwrap();
    let fstr = [1, 1, 1, 1];
    let (data, _, _, _) = backward_gemms(&o).unwrap();
    let patches = unfold_grad_out(&o, &[2, 2, 2, 1], &vec![1.0f32, 2.0], 0.0);
    let filters = transpose_filters(&o, &fstr, &vec![3.0f32]);
    let mut grad_inp = vec![10.0f32, 20.0];
    batched_gemm(&data, &filters, &patches, &mut grad_inp, 0.0, |a: f32, b: f32| a * b, |a: f32, b: f32| a + b);
    assert_eq!(grad_inp, vec![13.0, 26.0]);
    let mut grad_w = vec![1.0f32];
    sum_filter_grads(&o, &vec![4.0], &fstr, &mut grad_w, |a: f32, b: f32| a + b);
    assert_eq!(grad_w, vec![5.0]);
}

#[test]
fn conv_checks_accept_contiguous_layouts_and_refuse_short_buffers() {
    let o = op();
    assert!(o.check_geometry());
    assert!(o.check_input(&[75, 25, 5, 1], 150));
    assert!(!o.check_input(&[75, 25, 5, 1], 149));
    assert!(o.check_filters(&[27, 9, 3, 1], 108));
    assert!(!o.check_filters(&[27, 9, 3, 1], 107));
    assert!(o.check_grad_out(&[100, 25, 5, 1], 200));
    assert!(!o.check_grad_out(&[100, 25, 5, 1], 199));
    let mut zero_stride = o;
    zero_stride.stride = 0;
    assert!(!zero_stride.check_geometry());
}

#[test]
fn gemm_check_follows_operand_lengths() {
    let (g, patches) = forward_gemm(&op()).unwrap();
    assert!(g.check(4 * 27, patches));
    assert!(!g.check(4 * 27 - 1, patches));
    assert!(!g.check(4 * 27, patches - 1));
    let mut strided_out = g;
    strided_out.out_strides = [100, 25, 2];
    assert!(!strided_out.check(4 * 27, patches));
}

#[test]
fn conv2d_forward_matches_direct_convolution() {
    let o = Conv2DOp::new(2, 1, 0, 1, 1, 1, 3, 3).unwrap();
    let inp: Vec<f32> = (1..=9).map(|v| v as f32).collect();
    let out = conv2d_forward(&o, &[9, 9, 3, 1], &inp, &vec![1.0, 0.0, 0.0, 1.0], 0.0, |a: f32, b: f32| a * b, |a: f32, b: f32| a + b);
    assert_eq!(out, Ok(vec![6.0, 8.0, 12.0, 14.0]));
}

#[test]
fn conv2d_forward_refuses_short_buffers() {
    let o = Conv2DOp::new(2, 1, 0, 1, 1, 1, 3, 3).unwrap();
    let inp: Vec<f32> = (1..=9).map(|v| v as f32).collect();
    let mul = |a: f32, b: f32| a * b;
    let add = |a: f32, b: f32| a + b;
    assert_eq!(conv2d_forward(&o, &[9, 9, 3, 1], &inp, &vec![1.0, 0.0, 0.0], 0.0, mul, add), Err(ConvError::Layout));
    assert_eq!(conv2d_forward(&o, &[9, 9, 3, 1], &vec![1.0; 8], &vec![1.0; 4], 0.0, mul, add), Err(ConvError::Layout));
    let mut big = o;
    big.batch = usize::MAX;
    assert_eq!(conv2d_forward(&big, &[9, 9, 3, 1], &inp, &vec![1.0; 4], 0.0, mul, add), Err(ConvError::Size));
}

#[test]
fn conv2d_backward_matches_the_composed_passes() {
    let o = Conv2DOp::new(3, 2, 1, 2, 2, 3, 4, 5).unwrap();
    let inp = values(2 * 2 * 4 * 5, 1);
    let weights = values(3 * 2 * 3 * 3, 2);
    let grad_out = values(2 * 3 * 2 * 3, 3);
    let (expect_inp, expect_w) = backward64(&o, &inp, &weights, &grad_out);
    let mut grad_inp = vec![0.0f64; inp.len()];
    let mut grad_w = vec![0.0f64; weights.len()];
    let r = conv2d_backward(&o, &inp, &mut grad_inp, &weights, &mut grad_w, &grad_out, 0.0, |a: f64, b: f64| a * b, |a: f64, b: f64| a + b);
    assert_eq!(r, Ok(()));
    assert_eq!(grad_inp, expect_inp);
    assert_eq!(grad_w, expect_w);
    let fwd = conv2d_forward(&o, &[40, 20, 5, 1], &inp, &weights, 0.0, |a: f64, b: f64| a * b, |a: f64, b: f64| a + b).unwrap();
    assert_eq!(fwd, forward64(&o, &inp, &weights));
}

#[test]
fn conv2d_backward_refuses_and_leaves_gradients_unchanged() {
    let o = Conv2DOp::new(1, 1, 0, 1, 1, 1, 1, 2).unwrap();
    let mut grad_inp = vec![1.0f32, 2.0, 3.0];
    let mut grad_w = vec![5.0f32];
    let r = conv2d_backward(&o, &vec![1.0, 1.0], &mut grad_inp, &vec![3.0], &mut grad_w, &vec![1.0, 2.0], 0.0, |a: f32, b: f32| a * b, |a: f32, b: f32| a + b);
    assert_eq!(r, Err(ConvError::Layout));
    assert_eq!(grad_inp, vec![1.0, 2.0, 3.0]);
    assert_eq!(grad_w, vec![5.0]);
    let mut grad_inp = vec![10.0f32, 20.0];
    let r = conv2d_backward(&o, &vec![1.0, 2.0], &mut grad_inp, &vec![3.0], &mut grad_w, &vec![1.0, 2.0], 0.0, |a: f32, b: f32| a * b, |a: f32, b: f32| a + b);
    assert_eq!(r, Ok(()));
    assert_eq!(grad_inp, vec![13.0, 26.0]);
    assert_eq!(grad_w, vec![10.0]);
}
