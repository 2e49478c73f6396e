use dfdx::elementwise::{choose_backward, choose_forward, cmp_forward, numel, scalar_cmp_forward, strided_offset};

#[test]
fn strided_offset_follows_each_layout() {
    let dims = vec![2, 3];
    assert_eq!(strided_offset(&dims, &vec![3, 1], 4), 4);
    assert_eq!(strided_offset(&dims, &vec![1, 2], 4), 3);
    assert_eq!(strided_offset(&dims, &vec![0, 1], 4), 1);
    assert_eq!(strided_offset(&dims, &vec![0, 0], 5), 0);
}

#[test]
fn numel_of_shapes() {
    assert_eq!(numel(&vec![2, 3, 4]), 24);
    assert_eq!(numel(&vec![]), 1);
    assert_eq!(numel(&vec![3, 0, usize::MAX]), 0);
}

#[test]
fn comparison_reads_a_broadcast_operand_in_place() {
    let dims = vec![2, 3];
    let lhs = vec![1.0f32, 5.0, 3.0, 4.0, 2.0, 6.0];
    let rhs = vec![2.0f32, 2.0, 4.0];
    let out = cmp_forward(&dims, &lhs, &vec![3, 1], &rhs, &vec![0, 1], |a: f32, b: f32| a > b);
    assert_eq!(out, vec![false, true, false, true, false, true]);
    let eq = cmp_forward(&dims, &lhs, &vec![3, 1], &rhs, &vec![0, 1], |a: f32, b: f32| a == b);
    assert_eq!(eq, vec![false, false, false, false, true, false]);
}

#[test]
fn scalar_comparison() {
    let dims = vec![2, 3];
    let lhs = vec![1.0f64, 5.0, 3.0, 4.0, 2.0, 6.0];
    let out = scalar_cmp_forward(&dims, &lhs, &vec![3, 1], 3.0, |a: f64, b: f64| a >= b);
    assert_eq!(out, vec![false, true, true, true, false, true]);
    let t = scalar_cmp_forward(&vec![3, 2], &lhs, &vec![1, 3], 3.0, |a: f64, b: f64| a < b);
    assert_eq!(t, vec![true, false, false, true, false, false]);
}

#[test]
fn choose_picks_per_element_from_each_layout() {
    let dims = vec![2, 2];
    let cond = vec![true, false, false, true];
    let out = choose_forward(&dims, &cond, &vec![2, 1], &vec![1.0f32, 2.0, 3.0, 4.0], &vec![2, 1], &vec![9.0f32], &vec![0, 0]);
    assert_eq!(out, vec![1.0, 9.0, 9.0, 4.0]);
}

#[test]
fn choose_backward_routes_the_whole_gradient_to_the_picked_operand() {
    let dims = vec![2, 2];
    let cond = vec![true, false, true, true];
    let mut grad_lhs = vec![10.0f32, 20.0];
    let mut grad_rhs = vec![0.0f32; 4];
    choose_backward(
        &dims,
        &cond,
        &vec![2, 1],
        &mut grad_lhs,
        &vec![0, 1],
        &mut grad_rhs,
        &vec![2, 1],
        &vec![1.0, 2.0, 3.0, 4.0],
        |g: f32, go: f32| g + go,
    );
    assert_eq!(grad_lhs, vec![14.0, 24.0]);
    assert_eq!(grad_rhs, vec![0.0, 2.0, 0.0, 0.0]);
}
