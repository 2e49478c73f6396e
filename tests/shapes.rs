use dfdx::shapes::{
    default_strides, make_4d, num_elements, permute_for_reductions, reduction_elems_per_thread,
    reduction_output_numel,
};

#[test]
fn make_4d_puts_a_broadcast_batch_axis_in_front_of_rank_3() {
    assert_eq!(make_4d(3, &[12, 4, 1]), [0, 12, 4, 1]);
}

#[test]
fn make_4d_keeps_rank_4() {
    assert_eq!(make_4d(4, &[60, 12, 4, 1]), [60, 12, 4, 1]);
}

#[test]
fn default_strides_are_row_major() {
    assert_eq!(default_strides(&vec![2, 3, 4]), Some(vec![12, 4, 1]));
    assert_eq!(default_strides(&vec![5]), Some(vec![1]));
    assert_eq!(default_strides(&vec![]), Some(vec![]));
}

#[test]
fn default_strides_refuse_overflow() {
    assert_eq!(default_strides(&vec![2, usize::MAX, 2]), None);
    assert_eq!(default_strides(&vec![usize::MAX, 1]), Some(vec![1, 1]));
}

#[test]
fn num_elements_multiplies_extents() {
    assert_eq!(num_elements(&vec![2, 3, 4]), Some(24));
    assert_eq!(num_elements(&vec![]), Some(1));
    assert_eq!(num_elements(&vec![0, usize::MAX]), Some(0));
    assert_eq!(num_elements(&vec![usize::MAX, 2]), None);
}

#[test]
fn permute_puts_reduced_axes_last() {
    let (dims, strides) =
        permute_for_reductions(&vec![2, 3, 4], &vec![12, 4, 1], &vec![false, true, false]);
    assert_eq!(dims, vec![2, 4, 3]);
    assert_eq!(strides, vec![12, 1, 4]);
}

#[test]
fn permute_drops_broadcast_axes() {
    let (dims, strides) =
        permute_for_reductions(&vec![2, 3, 4], &vec![0, 4, 1], &vec![true, false, true]);
    assert_eq!(dims, vec![3, 4]);
    assert_eq!(strides, vec![4, 1]);
}

#[test]
fn elems_per_thread_counts_physical_reduced_elements() {
    let dims = vec![2, 3, 4];
    assert_eq!(reduction_elems_per_thread(&dims, &vec![12, 4, 1], &vec![false, true, true]), Some(12));
    assert_eq!(reduction_elems_per_thread(&dims, &vec![0, 1, 0], &vec![true, true, false]), Some(3));
    assert_eq!(reduction_elems_per_thread(&dims, &vec![12, 4, 1], &vec![false, false, false]), Some(1));
}

#[test]
fn reduction_output_and_chunks_cover_the_input() {
    let dims = vec![2, 3, 4];
    let strides = vec![12, 4, 1];
    let reduced = vec![false, true, false];
    let out = reduction_output_numel(&dims, &strides, &reduced).unwrap();
    let chunk = reduction_elems_per_thread(&dims, &strides, &reduced).unwrap();
    assert_eq!(out, 8);
    assert_eq!(chunk, 3);
    assert_eq!(out * chunk, 24);
}

#[test]
fn reduction_of_a_broadcast_input_counts_only_physical_elements() {
    let dims = vec![5, 3];
    let strides = vec![0, 1];
    let reduced = vec![true, false];
    assert_eq!(reduction_output_numel(&dims, &strides, &reduced), Some(3));
    assert_eq!(reduction_elems_per_thread(&dims, &strides, &reduced), Some(1));
}
