use dfdx::tape::Tape;

#[test]
fn backward_replays_newest_first() {
    let mut tape: Tape<u32> = Tape::new();
    tape.record(true, 1);
    tape.record(false, 2);
    tape.record(true, 3);
    tape.record(true, 4);
    assert_eq!(tape.len(), 3);
    let order = tape.replay(Vec::new(), |mut seen: Vec<u32>, e: &u32| {
        seen.push(*e);
        seen
    });
    assert_eq!(order, vec![4, 3, 1]);
}

#[test]
fn backward_threads_the_gradient_through_each_entry() {
    // y = 3 * x, z = y + 2: entries hold each local derivative.
    let mut tape: Tape<f64> = Tape::new();
    tape.record(true, 3.0);
    tape.record(true, 1.0);
    let dz_dx = tape.replay(1.0, |g: f64, d: &f64| g * d);
    assert_eq!(dz_dx, 3.0);
}

#[test]
fn empty_tape_returns_the_seed() {
    let tape: Tape<u8> = Tape::new();
    assert_eq!(tape.replay(7i32, |g: i32, _e: &u8| g + 1), 7);
}
