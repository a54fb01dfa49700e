use life_rust::game_impls::{compute, cpu, cpu_ndarray};
use life_rust::Gol;

// cpu
#[test]
fn cpu_structure_tub() {
    structure_tub_tester::<cpu::GameState>();
}

#[test]
fn cpu_structure_box() {
    structure_box_tester::<cpu::GameState>();
}

#[test]
fn cpu_structure_box_wrapped() {
    structure_box_wrapped_tester::<cpu::GameState>();
}

#[test]
fn cpu_structure_blinker() {
    structure_blinker_tester::<cpu::GameState>();
}

#[test]
fn cpu_structure_beacon() {
    structure_beacon_tester::<cpu::GameState>();
}

// cpu_ndarray
#[test]
fn cpu_ndarray_structure_tub() {
    structure_tub_tester::<cpu_ndarray::GameState>();
}

#[test]
fn cpu_ndarray_ndarray_structure_box() {
    structure_box_tester::<cpu_ndarray::GameState>();
}

#[test]
fn cpu_ndarray_structure_box_wrapped() {
    structure_box_wrapped_tester::<cpu_ndarray::GameState>();
}

#[test]
fn cpu_ndarray_structure_blinker() {
    structure_blinker_tester::<cpu_ndarray::GameState>();
}

#[test]
fn cpu_ndarray_structure_beacon() {
    structure_beacon_tester::<cpu_ndarray::GameState>();
}

// compute
#[test]
fn compute_structure_tub() {
    structure_tub_tester::<compute::GameState>();
}

#[test]
fn compute_structure_box() {
    structure_box_tester::<compute::GameState>();
}

#[test]
fn compute_structure_box_wrapped() {
    structure_box_wrapped_tester::<compute::GameState>();
}

#[test]
fn compute_structure_blinker() {
    structure_blinker_tester::<compute::GameState>();
}

#[test]
fn compute_structure_beacon() {
    structure_beacon_tester::<compute::GameState>();
}

fn structure_tub_tester<T: Gol>() {
    let start = vec![
        false, false, false, false, false, //
        false, false, true, false, false, //
        false, true, false, true, false, //
        false, false, true, false, false, //
        false, false, false, false, false,
    ];

    let state1 = T::from_slice(5, &start).unwrap();
    println!("{}", state1.render());
    let state2 = state1.to_next();
    println!("{}", state2.render());

    assert!(state2.to_vec() == start);
}

fn structure_box_tester<T: Gol>() {
    let start = vec![
        false, false, false, false, //
        false, true, true, false, //
        false, true, true, false, //
        false, false, false, false,
    ];

    let state1 = T::from_slice(4, &start).unwrap();
    println!("{}", state1.render());
    let state2 = state1.to_next();
    println!("{}", state2.render());

    assert!(state2.to_vec() == start);
}

// same as box test, but in the game corner to test wrapping behavior.
fn structure_box_wrapped_tester<T: Gol>() {
    let start = vec![
        true, false, false, true, //
        false, false, false, false, //
        false, false, false, false, //
        true, false, false, true,
    ];

    let state1 = T::from_slice(4, &start).unwrap();
    println!("{}", state1.render());
    let state2 = state1.to_next();
    println!("{}", state2.render());

    assert!(state2.to_vec() == start);
}

fn structure_blinker_tester<T: Gol>() {
    let start = vec![
        false, false, false, false, false, //
        false, false, true, false, false, //
        false, false, true, false, false, //
        false, false, true, false, false, //
        false, false, false, false, false,
    ];
    let expected_mid = vec![
        false, false, false, false, false, //
        false, false, false, false, false, //
        false, true, true, true, false, //
        false, false, false, false, false, //
        false, false, false, false, false,
    ];

    let state1 = T::from_slice(5, &start).unwrap();
    println!("{}", state1.render());
    let state2 = state1.to_next();
    println!("{}", state2.render());
    let state3 = state2.to_next();
    println!("{}", state3.render());

    assert!(state2.to_vec() == expected_mid);
    // verify that it repeats in 2 cycles
    assert!(state3.to_vec() == start);
}

fn structure_beacon_tester<T: Gol>() {
    let start = vec![
        false, false, false, false, false, false, //
        false, true, true, false, false, false, //
        false, true, true, false, false, false, //
        false, false, false, true, true, false, //
        false, false, false, true, true, false, //
        false, false, false, false, false, false,
    ];
    // the middle two blink
    let expected_mid = vec![
        false, false, false, false, false, false, //
        false, true, true, false, false, false, //
        false, true, false, false, false, false, //
        false, false, false, false, true, false, //
        false, false, false, true, true, false, //
        false, false, false, false, false, false,
    ];

    let state1 = T::from_slice(6, &start).unwrap();
    println!("{}", state1.render());
    let state2 = state1.to_next();
    println!("{}", state2.render());
    let state3 = state2.to_next();
    println!("{}", state3.render());

    assert!(state2.to_vec() == expected_mid);
    // verify that it repeats in 2 cycles
    assert!(state3.to_vec() == start);
}
