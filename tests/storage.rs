use dfdx::pool2d::{pool_backward, Pool2DOp};
use dfdx::storage::Buffer;

#[test]
fn writing_through_one_handle_leaves_a_shared_handle_unchanged() {
    let mut a = Buffer::new(vec![1.0f32, 2.0, 3.0]);
    let b = a.share();
    a.set(0, 9.0);
    assert_eq!(a.get(0), 9.0);
    assert_eq!(b.get(0), 1.0);
    assert_eq!(b.get(1), 2.0);
    assert_eq!(a.len(), 3);
}

#[test]
fn writing_an_unshared_buffer_changes_it() {
    let mut a = Buffer::new(vec![1u8, 2]);
    a.set(1, 5);
    assert_eq!(a.get(1), 5);
    assert_eq!(a.get(0), 1);
}

#[test]
fn a_kernel_writing_a_shared_gradient_leaves_the_other_handle_unchanged() {
    use_kernel();
}

fn use_kernel() {
    let shared = Buffer::new(vec![1.0f32, 1.0, 1.0, 1.0]);
    let other = shared.share();
    let mut grad = shared.into_vec();
    let o = Pool2DOp::new(2, 2, 0, 1, 1, 2, 2).unwrap();
    let inp = vec![5.0f32, 5.0, 1.0, 5.0];
    pool_backward(&o, &[4, 4, 2, 1], &inp, &vec![5.0], &vec![2.0], &mut grad, |g: f32, x: f32, y: f32, go: f32| {
        if x == y { g + go } else { g }
    });
    assert_eq!(grad, vec![3.0, 3.0, 1.0, 3.0]);
    for i in 0..4 {
        assert_eq!(other.get(i), 1.0);
    }
}

#[test]
fn into_vec_of_an_unshared_buffer_keeps_its_elements() {
    let a = Buffer::new(vec![7u8, 8]);
    assert_eq!(a.into_vec(), vec![7, 8]);
}
