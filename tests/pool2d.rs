use dfdx::pool2d::{
    check_fits4,
    pool_backward, pool_forward, pool_out_dim, slot_coords, slot_count, window_coord,
    window_inputs, Pool2DOp,
};
use dfdx::shapes::make_4d;

fn op(kernel: usize, stride: usize, padding: usize, b: usize, c: usize, h: usize, w: usize) -> Pool2DOp {
    Pool2DOp::new(kernel, stride, padding, b, c, h, w).unwrap()
}

fn contiguous(o: &Pool2DOp) -> [usize; 4] {
    [o.chan * o.h_in * o.w_in, o.h_in * o.w_in, o.w_in, 1]
}

fn max_pool(o: &Pool2DOp, inp: &Vec<f32>) -> Vec<f32> {
    pool_forward(o, &contiguous(o), inp, f32::NEG_INFINITY, |a: f32, v: f32| a.max(v), |a: f32| a)
}

fn min_pool(o: &Pool2DOp, inp: &Vec<f32>) -> Vec<f32> {
    pool_forward(o, &contiguous(o), inp, f32::INFINITY, |a: f32, v: f32| a.min(v), |a: f32| a)
}

fn avg_pool(o: &Pool2DOp, inp: &Vec<f32>) -> Vec<f32> {
    let area = (o.kernel * o.kernel) as f32;
    pool_forward(o, &contiguous(o), inp, 0.0, |a: f32, v: f32| a + v, move |a: f32| a / area)
}

fn extremum_backward(o: &Pool2DOp, inp: &Vec<f32>, out: &Vec<f32>, gout: &Vec<f32>, ginp: &mut Vec<f32>) {
    pool_backward(o, &contiguous(o), inp, out, gout, ginp, |g: f32, x: f32, y: f32, go: f32| {
        if x == y { g + go } else { g }
    })
}

fn avg_backward(o: &Pool2DOp, inp: &Vec<f32>, out: &Vec<f32>, gout: &Vec<f32>, ginp: &mut Vec<f32>) {
    let area = (o.kernel * o.kernel) as f32;
    pool_backward(o, &contiguous(o), inp, out, gout, ginp, move |g: f32, _x: f32, _y: f32, go: f32| {
        g + go / area
    })
}

#[test]
fn output_extent_follows_the_window_geometry() {
    assert_eq!(pool_out_dim(4, 2, 2, 0), Some(2));
    assert_eq!(pool_out_dim(5, 3, 1, 1), Some(5));
    assert_eq!(pool_out_dim(7, 3, 2, 0), Some(3));
    assert_eq!(pool_out_dim(4, 2, 0, 0), None);
    assert_eq!(pool_out_dim(1, 4, 1, 1), None);
}

#[test]
fn new_fills_in_output_extents() {
    let o = op(3, 2, 1, 2, 3, 7, 5);
    assert_eq!((o.h_out, o.w_out), (4, 3));
    assert_eq!((o.batch, o.chan, o.h_in, o.w_in), (2, 3, 7, 5));
    assert_eq!(slot_count(&o), 2 * 3 * 4 * 3);
}

#[test]
fn window_coord_skips_padding() {
    assert_eq!(window_coord(0, 0, 1, 1), None);
    assert_eq!(window_coord(1, 0, 1, 1), Some(0));
    assert_eq!(window_coord(2, 1, 2, 1), Some(4));
}

#[test]
fn slots_count_in_row_major_order() {
    let o = op(1, 1, 0, 2, 3, 4, 5);
    assert_eq!(slot_coords(&o, 0), (0, 0, 0, 0));
    assert_eq!(slot_coords(&o, 7), (0, 0, 1, 2));
    assert_eq!(slot_coords(&o, 2 * 3 * 4 * 5 - 1), (1, 2, 3, 4));
    assert_eq!(slot_coords(&o, 60 + 20 + 5 + 1), (1, 1, 1, 1));
}

#[test]
fn window_leaves_out_padded_positions() {
    let o = op(2, 1, 1, 1, 1, 2, 2);
    let s = contiguous(&o);
    assert_eq!(window_inputs(&o, &s, 4, 0, 0, 0, 0), vec![0]);
    assert_eq!(window_inputs(&o, &s, 4, 0, 0, 1, 1), vec![0, 1, 2, 3]);
    assert_eq!(window_inputs(&o, &s, 4, 0, 0, 2, 1), vec![2, 3]);
}

#[test]
fn window_of_a_rank_3_input_uses_the_broadcast_batch_axis() {
    let o = op(2, 2, 0, 1, 2, 2, 2);
    let s = make_4d(3, &[4, 2, 1]);
    assert_eq!(window_inputs(&o, &s, 8, 0, 1, 0, 0), vec![4, 5, 6, 7]);
}

#[test]
fn max_pool_forward_takes_the_window_maximum() {
    let o = op(2, 2, 0, 1, 1, 4, 4);
    let inp: Vec<f32> = (1..=16).map(|v| v as f32).collect();
    assert_eq!(max_pool(&o, &inp), vec![6.0, 8.0, 14.0, 16.0]);
}

#[test]
fn min_pool_forward_takes_the_window_minimum() {
    let o = op(2, 2, 0, 1, 1, 4, 4);
    let inp: Vec<f32> = (1..=16).map(|v| v as f32).collect();
    assert_eq!(min_pool(&o, &inp), vec![1.0, 3.0, 9.0, 11.0]);
}

#[test]
fn max_pool_of_an_all_padding_window_is_negative_infinity() {
    let o = op(1, 1, 1, 1, 1, 1, 1);
    let out = max_pool(&o, &vec![5.0]);
    assert_eq!(out.len(), 9);
    assert_eq!(out[0], f32::NEG_INFINITY);
    assert_eq!(out[4], 5.0);
}

#[test]
fn avg_pool_divides_by_the_full_kernel_area() {
    let o = op(2, 2, 1, 1, 1, 2, 2);
    let out = avg_pool(&o, &vec![1.0, 2.0, 3.0, 4.0]);
    assert_eq!(out, vec![0.25, 0.5, 0.75, 1.0]);
}

#[test]
fn avg_pool_forward_over_channels() {
    let o = op(2, 1, 0, 1, 2, 2, 3);
    let inp = vec![1.0, 2.0, 3.0, 4.0, 5.0, 6.0, 0.0, 4.0, 8.0, 0.0, 4.0, 8.0];
    assert_eq!(avg_pool(&o, &inp), vec![3.0, 4.0, 2.0, 6.0]);
}

#[test]
fn max_pool_backward_gives_every_tied_position_the_whole_gradient() {
    let o = op(2, 2, 0, 1, 1, 2, 2);
    let inp = vec![5.0, 5.0, 1.0, 5.0];
    let out = max_pool(&o, &inp);
    assert_eq!(out, vec![5.0]);
    let mut ginp = vec![0.0; 4];
    extremum_backward(&o, &inp, &out, &vec![2.0], &mut ginp);
    assert_eq!(ginp, vec![2.0, 2.0, 0.0, 2.0]);
}

#[test]
fn min_pool_backward_routes_to_the_minimum() {
    let o = op(2, 2, 0, 1, 1, 2, 4);
    let inp = vec![3.0, 1.0, 7.0, 8.0, 2.0, 4.0, 6.0, 6.0];
    let out = min_pool(&o, &inp);
    assert_eq!(out, vec![1.0, 6.0]);
    let mut ginp = vec![0.0; 8];
    extremum_backward(&o, &inp, &out, &vec![1.5, 3.0], &mut ginp);
    assert_eq!(ginp, vec![0.0, 1.5, 0.0, 0.0, 0.0, 0.0, 3.0, 3.0]);
}

#[test]
fn pool_backward_accumulates_into_the_existing_gradient() {
    let o = op(2, 2, 0, 1, 1, 2, 2);
    let inp = vec![5.0, 5.0, 1.0, 5.0];
    let out = max_pool(&o, &inp);
    let mut ginp = vec![1.0; 4];
    extremum_backward(&o, &inp, &out, &vec![2.0], &mut ginp);
    assert_eq!(ginp, vec![3.0, 3.0, 1.0, 3.0]);
}

#[test]
fn avg_pool_backward_spreads_gradient_over_overlapping_windows() {
    let o = op(2, 1, 0, 1, 1, 3, 3);
    let inp = vec![0.0; 9];
    let out = avg_pool(&o, &inp);
    let mut ginp = vec![0.0; 9];
    avg_backward(&o, &inp, &out, &vec![1.0; 4], &mut ginp);
    assert_eq!(ginp, vec![0.25, 0.5, 0.25, 0.5, 1.0, 0.5, 0.25, 0.5, 0.25]);
    let total: f32 = ginp.iter().sum();
    assert_eq!(total, 4.0 * 1.0 * 4.0 / 4.0);
}

#[test]
fn avg_pool_backward_counts_only_in_bounds_positions() {
    let o = op(2, 2, 1, 1, 1, 2, 2);
    let inp = vec![1.0, 2.0, 3.0, 4.0];
    let out = avg_pool(&o, &inp);
    let mut ginp = vec![0.0; 4];
    avg_backward(&o, &inp, &out, &vec![4.0, 8.0, 12.0, 16.0], &mut ginp);
    assert_eq!(ginp, vec![1.0, 2.0, 3.0, 4.0]);
}

fn avg_pool64(o: &Pool2DOp, inp: &Vec<f64>) -> Vec<f64> {
    let s = [o.chan * o.h_in * o.w_in, o.h_in * o.w_in, o.w_in, 1];
    let area = (o.kernel * o.kernel) as f64;
    pool_forward(o, &s, inp, 0.0, |a: f64, v: f64| a + v, move |a: f64| a / area)
}

fn max_pool64(o: &Pool2DOp, inp: &Vec<f64>) -> Vec<f64> {
    let s = [o.chan * o.h_in * o.w_in, o.h_in * o.w_in, o.w_in, 1];
    pool_forward(o, &s, inp, f64::NEG_INFINITY, |a: f64, v: f64| a.max(v), |a: f64| a)
}

fn weighted(out: &Vec<f64>, w: &Vec<f64>) -> f64 {
    out.iter().zip(w).map(|(a, b)| a * b).sum()
}

fn check_finite_differences(
    o: &Pool2DOp,
    inp: &Vec<f64>,
    forward: &dyn Fn(&Pool2DOp, &Vec<f64>) -> Vec<f64>,
    grad: &Vec<f64>,
    grad_out: &Vec<f64>,
) {
    let h = 1e-4;
    for i in 0..inp.len() {
        let mut plus = inp.clone();
        let mut minus = inp.clone();
        plus[i] += h;
        minus[i] -= h;
        let numeric = (weighted(&forward(o, &plus), grad_out) - weighted(&forward(o, &minus), grad_out)) / (2.0 * h);
        assert!((numeric - grad[i]).abs() < 1e-6 * (1.0 + numeric.abs()), "{}: {} vs {}", i, numeric, grad[i]);
    }
}

#[test]
fn avg_pool_backward_matches_finite_differences() {
    let o = op(3, 2, 1, 2, 2, 5, 4);
    let n = 2 * 2 * 5 * 4;
    let inp: Vec<f64> = (0..n).map(|i| ((i * 7) % 11) as f64 / 3.0).collect();
    let out = avg_pool64(&o, &inp);
    let grad_out: Vec<f64> = (0..out.len()).map(|i| ((i * 5) % 7) as f64 - 3.0).collect();
    let s = [o.chan * o.h_in * o.w_in, o.h_in * o.w_in, o.w_in, 1];
    let area = 9.0;
    let mut grad = vec![0.0; n];
    pool_backward(&o, &s, &inp, &out, &grad_out, &mut grad, move |g: f64, _x: f64, _y: f64, go: f64| g + go / area);
    check_finite_differences(&o, &inp, &avg_pool64, &grad, &grad_out);
}

#[test]
fn max_pool_backward_matches_finite_differences_without_ties() {
    let o = op(2, 2, 0, 1, 2, 4, 4);
    let n = 2 * 4 * 4;
    let inp: Vec<f64> = (0..n).map(|i| ((i * 13) % 32) as f64 * 0.5).collect();
    let out = max_pool64(&o, &inp);
    let grad_out: Vec<f64> = (0..out.len()).map(|i| (i as f64) - 2.5).collect();
    let s = [32, 16, 4, 1];
    let mut grad = vec![0.0; n];
    pool_backward(&o, &s, &inp, &out, &grad_out, &mut grad, |g: f64, x: f64, y: f64, go: f64| {
        if x == y { g + go } else { g }
    });
    check_finite_differences(&o, &inp, &max_pool64, &grad, &grad_out);
}

#[test]
fn fits_checks_layout_against_the_buffer() {
    let o = op(2, 2, 0, 1, 2, 4, 4);
    assert!(o.fits(&[32, 16, 4, 1], 32));
    assert!(!o.fits(&[32, 16, 4, 1], 31));
    assert!(o.fits(&[0, 0, 4, 1], 16));
    let mut wide = o;
    wide.h_out = usize::MAX;
    assert!(!wide.fits(&[32, 16, 4, 1], 32));
}

#[test]
fn check_fits4_on_empty_and_broadcast_layouts() {
    assert!(check_fits4(&[0, 5, 5, 5], &[usize::MAX, 1, 1, 1], 0));
    assert!(check_fits4(&[3, 2, 1, 1], &[0, 1, 0, 0], 2));
    assert!(!check_fits4(&[3, 2, 1, 1], &[1, 1, 0, 0], 3));
    assert!(!check_fits4(&[2, 1, 1, 1], &[usize::MAX, 0, 0, 0], usize::MAX));
}
