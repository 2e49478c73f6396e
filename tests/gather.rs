use dfdx::gather::{gather_backward, gather_forward, select_backward, select_forward};

#[test]
fn gather_picks_indexed_rows() {
    // [outer=2, n=3, inner=2]
    let inp = vec![0, 1, 10, 11, 20, 21, 100, 101, 110, 111, 120, 121];
    let out = gather_forward(2, 3, 2, &inp, 2, &vec![2, 0, 1, 1]);
    assert_eq!(out, Some(vec![20, 21, 0, 1, 110, 111, 110, 111]));
}

#[test]
fn gather_refuses_an_index_past_the_axis() {
    let inp = vec![1.0f32, 2.0, 3.0];
    assert_eq!(gather_forward(1, 3, 1, &inp, 2, &vec![0, 3]), None);
    assert_eq!(gather_forward(1, 3, 1, &inp, 2, &vec![0]), None);
    assert_eq!(gather_forward(1, 3, 1, &inp, 2, &vec![2, 2]), Some(vec![3.0, 3.0]));
}

#[test]
fn select_removes_the_axis() {
    let inp = vec![1.0f32, 2.0, 3.0, 4.0, 5.0, 6.0];
    assert_eq!(select_forward(2, 3, 1, &inp, &vec![2, 0]), Some(vec![3.0, 4.0]));
    assert_eq!(select_forward(2, 3, 1, &inp, &vec![2, 5]), None);
    assert_eq!(select_forward(1, 2, 3, &inp, &vec![1]), Some(vec![4.0, 5.0, 6.0]));
}

#[test]
fn gather_backward_adds_every_contribution() {
    let mut grad = vec![0.0f32; 3];
    let r = gather_backward(1, 3, 1, &mut grad, 3, &vec![1, 1, 2], &vec![1.0, 2.0, 4.0], |a: f32, b: f32| a + b);
    assert_eq!(r, Some(()));
    assert_eq!(grad, vec![0.0, 3.0, 4.0]);
}

#[test]
fn gather_backward_refusal_leaves_gradient_unchanged() {
    let mut grad = vec![1.0f32; 3];
    let r = gather_backward(1, 3, 1, &mut grad, 2, &vec![1, 7], &vec![1.0, 2.0], |a: f32, b: f32| a + b);
    assert_eq!(r, None);
    assert_eq!(grad, vec![1.0; 3]);
}

#[test]
fn select_backward_routes_to_the_selected_element() {
    let mut grad = vec![10.0f32; 6];
    let r = select_backward(2, 3, 1, &mut grad, &vec![2, 0], &vec![1.0, 2.0], |a: f32, b: f32| a + b);
    assert_eq!(r, Some(()));
    assert_eq!(grad, vec![10.0, 10.0, 11.0, 12.0, 10.0, 10.0]);
}
