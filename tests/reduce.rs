use dfdx::elementwise::check_reads_within;
use dfdx::reduce::{reduce_backward, reduce_forward, reduce_to};
use dfdx::shapes::broadcast_strides;

fn min_to(dims: &Vec<usize>, inp: &Vec<f32>, strides: &Vec<usize>, out_strides: &Vec<usize>, out_len: usize) -> Vec<f32> {
    reduce_forward(dims, inp, strides, out_strides, out_len, f32::INFINITY, |a: f32, v: f32| a.min(v))
}

#[test]
fn broadcast_strides_put_zeros_on_reduced_axes() {
    assert_eq!(broadcast_strides(&vec![false, true, false], &vec![4, 1]), vec![4, 0, 1]);
    assert_eq!(broadcast_strides(&vec![true, true], &vec![]), vec![0, 0]);
    assert_eq!(broadcast_strides(&vec![false], &vec![1]), vec![1]);
}

#[test]
fn min_over_the_last_axis() {
    let dims = vec![2, 3];
    let inp = vec![3.0, 1.0, 2.0, 5.0, 4.0, 6.0];
    let out_strides = broadcast_strides(&vec![false, true], &vec![1]);
    assert_eq!(min_to(&dims, &inp, &vec![3, 1], &out_strides, 2), vec![1.0, 4.0]);
}

#[test]
fn min_over_the_first_axis() {
    let dims = vec![2, 3];
    let inp = vec![3.0, 1.0, 2.0, 5.0, 0.5, 6.0];
    let out_strides = broadcast_strides(&vec![true, false], &vec![1]);
    assert_eq!(min_to(&dims, &inp, &vec![3, 1], &out_strides, 3), vec![3.0, 0.5, 2.0]);
}

#[test]
fn min_of_nothing_is_the_identity() {
    let out = min_to(&vec![2, 0], &vec![], &vec![0, 1], &vec![1, 0], 2);
    assert_eq!(out, vec![f32::INFINITY, f32::INFINITY]);
}

#[test]
fn sum_of_a_broadcast_input_reads_it_in_place() {
    let dims = vec![2, 3];
    let inp = vec![7.0f64, 8.0, 9.0];
    let out = reduce_forward(&dims, &inp, &vec![0, 1], &vec![0, 1], 3, 0.0, |a: f64, v: f64| a + v);
    assert_eq!(out, vec![14.0, 16.0, 18.0]);
}

#[test]
fn min_backward_gives_each_tie_the_whole_gradient() {
    let dims = vec![2, 3];
    let inp = vec![1.0f32, 1.0, 2.0, 5.0, 4.0, 4.0];
    let out_strides = vec![1, 0];
    let out = min_to(&dims, &inp, &vec![3, 1], &out_strides, 2);
    assert_eq!(out, vec![1.0, 4.0]);
    let mut grad_inp = vec![0.0f32; 6];
    reduce_backward(&dims, &inp, &vec![3, 1], &mut grad_inp, &out, &vec![2.0, 3.0], &out_strides, |g: f32, x: f32, o: f32, go: f32| {
        if x == o { g + go } else { g }
    });
    assert_eq!(grad_inp, vec![2.0, 2.0, 0.0, 0.0, 3.0, 3.0]);
}

#[test]
fn min_backward_matches_finite_differences_without_ties() {
    let dims = vec![3, 4];
    let inp: Vec<f64> = (0..12).map(|i| ((i * 5) % 12) as f64).collect();
    let forward = |x: &Vec<f64>| reduce_forward(&dims, x, &vec![4, 1], &vec![0, 1], 4, f64::INFINITY, |a: f64, v: f64| a.min(v));
    let out = forward(&inp);
    let grad_out = vec![1.0, -2.0, 0.5, 3.0];
    let mut grad = vec![0.0; 12];
    reduce_backward(&dims, &inp, &vec![4, 1], &mut grad, &out, &grad_out, &vec![0, 1], |g: f64, x: f64, o: f64, go: f64| {
        if x == o { g + go } else { g }
    });
    let h = 1e-4;
    for i in 0..12 {
        let mut plus = inp.clone();
        let mut minus = inp.clone();
        plus[i] += h;
        minus[i] -= h;
        let f = |x: &Vec<f64>| -> f64 { forward(x).iter().zip(&grad_out).map(|(a, b)| a * b).sum() };
        let numeric = (f(&plus) - f(&minus)) / (2.0 * h);
        assert!((numeric - grad[i]).abs() < 1e-6, "{}: {} vs {}", i, numeric, grad[i]);
    }
}

#[test]
fn reduce_to_derives_the_output_shape() {
    let dims = vec![2, 3, 4];
    let inp: Vec<f32> = (0..24).map(|v| v as f32).collect();
    let (out_dims, out) = reduce_to(&dims, &inp, &vec![12, 4, 1], &vec![false, true, false], 0.0, |a: f32, v: f32| a + v).unwrap();
    assert_eq!(out_dims, vec![2, 4]);
    assert_eq!(out, vec![12.0, 15.0, 18.0, 21.0, 48.0, 51.0, 54.0, 57.0]);
    let (all_dims, all) = reduce_to(&dims, &inp, &vec![12, 4, 1], &vec![true, true, true], f32::INFINITY, |a: f32, v: f32| a.min(v)).unwrap();
    assert_eq!(all_dims, vec![]);
    assert_eq!(all, vec![0.0]);
    let (none_dims, same) = reduce_to(&vec![2, 2], &vec![1.0f32, 2.0, 3.0, 4.0], &vec![2, 1], &vec![false, false], 0.0, |a: f32, v: f32| a + v).unwrap();
    assert_eq!(none_dims, vec![2, 2]);
    assert_eq!(same, vec![1.0, 2.0, 3.0, 4.0]);
}

#[test]
fn reads_within_checks_every_index() {
    assert!(check_reads_within(&vec![2, 3], &vec![3, 1], 6));
    assert!(!check_reads_within(&vec![2, 3], &vec![3, 1], 5));
    assert!(check_reads_within(&vec![2, 3], &vec![0, 1], 3));
    assert!(!check_reads_within(&vec![2, 3], &vec![1], 6));
}
