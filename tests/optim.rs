use dfdx::optim::{match_gradients, OptimizerUpdateError};

#[test]
fn every_parameter_is_paired_with_its_gradient() {
    let r = match_gradients(&vec![7, 3, 9], &vec![9, 7, 3]);
    assert_eq!(r, Ok(vec![1, 2, 0]));
}

#[test]
fn update_fails_on_a_parameter_without_gradient() {
    let r = match_gradients(&vec![7, 3, 9, 4], &vec![9, 7]);
    assert_eq!(r, Err(OptimizerUpdateError::UnusedParams(vec![3, 4])));
}

#[test]
fn no_parameters_need_no_gradients() {
    assert_eq!(match_gradients(&vec![], &vec![1, 2]), Ok(vec![]));
    assert_eq!(
        match_gradients(&vec![1], &vec![]),
        Err(OptimizerUpdateError::UnusedParams(vec![1]))
    );
}
