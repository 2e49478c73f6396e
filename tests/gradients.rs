use dfdx::gradients::{GradientError, Gradients};
use dfdx::optim::{match_gradients, OptimizerUpdateError};

fn sum(a: f32, b: f32) -> f32 {
    a + b
}

#[test]
fn first_contribution_becomes_the_accumulator() {
    let mut g: Gradients<f32> = Gradients::new();
    assert_eq!(g.get(3), None);
    assert_eq!(g.accumulate(3, vec![1.0, 2.0], sum), Ok(()));
    assert_eq!(g.get(3), Some(&vec![1.0, 2.0]));
}

#[test]
fn contributions_to_one_parameter_are_summed() {
    let mut g: Gradients<f32> = Gradients::new();
    g.accumulate(3, vec![1.0, 2.0], sum).unwrap();
    g.accumulate(5, vec![10.0], sum).unwrap();
    g.accumulate(3, vec![0.5, 4.0], sum).unwrap();
    assert_eq!(g.get(3), Some(&vec![1.5, 6.0]));
    assert_eq!(g.get(5), Some(&vec![10.0]));
}

#[test]
fn contribution_of_another_length_is_refused() {
    let mut g: Gradients<f32> = Gradients::new();
    g.accumulate(3, vec![1.0, 2.0], sum).unwrap();
    assert_eq!(
        g.accumulate(3, vec![1.0], sum),
        Err(GradientError::LengthMismatch { expected: 2, found: 1 })
    );
    assert_eq!(g.get(3), Some(&vec![1.0, 2.0]));
}

#[test]
fn ids_list_every_accumulator() {
    let mut g: Gradients<f32> = Gradients::new();
    g.accumulate(8, vec![1.0], sum).unwrap();
    g.accumulate(2, vec![1.0], sum).unwrap();
    g.accumulate(8, vec![1.0], sum).unwrap();
    let mut ids = g.ids();
    ids.sort();
    assert_eq!(ids, vec![2, 8]);
}

#[test]
fn update_is_refused_for_a_parameter_missing_from_the_map() {
    let mut g: Gradients<f32> = Gradients::new();
    g.accumulate(1, vec![1.0], sum).unwrap();
    let r = match_gradients(&vec![1, 2], &g.ids());
    assert_eq!(r, Err(OptimizerUpdateError::UnusedParams(vec![2])));
}
