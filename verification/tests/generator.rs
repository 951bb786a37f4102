use nat_emulation::rng::{xorshift64star, xorshift_take};

#[test]
fn xorshift_first_step_from_one() {
    let mut state = 1u64;
    let out = xorshift64star(&mut state);
    assert_eq!(state, 33554433);
    assert_eq!(out, 5180492295206395165);
}

#[test]
fn xorshift_second_and_third_step() {
    let mut state = 33554433u64;
    assert_eq!(xorshift64star(&mut state), 12380297144915551517);
    assert_eq!(state, 1126174793148417);
    assert_eq!(xorshift64star(&mut state), 13389498078930870103);
    assert_eq!(state, 3659449627584515);
}

#[test]
fn xorshift_zero_is_a_fixed_point() {
    let mut state = 0u64;
    assert_eq!(xorshift64star(&mut state), 0);
    assert_eq!(state, 0);
}

#[test]
fn xorshift_take_gives_the_steps_in_order() {
    let mut state = 1u64;
    let draws = xorshift_take(&mut state, 3);
    assert_eq!(draws, vec![5180492295206395165, 12380297144915551517, 13389498078930870103]);
    assert_eq!(state, 3659449627584515);
}

#[test]
fn xorshift_take_of_nothing_leaves_the_state() {
    let mut state = 12u64;
    let draws = xorshift_take(&mut state, 0);
    assert!(draws.is_empty());
    assert_eq!(state, 12);
}
