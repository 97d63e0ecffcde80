use cranefuck::optimizer::{
    optimize_inc_dec, optimize_zero_loops, remove_empty_loops, remove_preceding_loop,
};
use cranefuck::Op;

#[test]
fn test_remove_preceding_loop() {
    let mut ops = vec![
        Op::d_loop(0..1, vec![]),
        Op::d_loop(1..2, vec![]),
        Op::inc(2..3, 1),
        Op::d_loop(3..4, vec![Op::inc(4..5, 1)]),
    ];

    remove_preceding_loop(&mut ops);

    assert_eq!(
        ops,
        vec![Op::inc(2..3, 1), Op::d_loop(3..4, vec![Op::inc(4..5, 1)])]
    )
}

#[test]
fn test_remove_empty_loops() {
    let mut ops = vec![
        Op::inc(0..0, 1),
        Op::d_loop(0..0, vec![]),
        Op::d_loop(0..0, vec![Op::inc(0..0, 1)]),
    ];

    remove_empty_loops(&mut ops);

    assert_eq!(
        ops,
        vec![Op::inc(0..0, 1), Op::d_loop(0..0, vec![Op::inc(0..0, 1)])]
    )
}

#[test]
fn test_optimize_inc() {
    let mut ops = vec![Op::inc(0..1, 1), Op::inc(1..2, 2)];

    optimize_inc_dec(&mut ops, 1);

    assert_eq!(ops, vec![Op::inc(0..2, 3)])
}

#[test]
fn test_optimize_dec() {
    let mut ops = vec![Op::dec(0..1, 1), Op::dec(1..2, 2)];

    optimize_inc_dec(&mut ops, 1);

    assert_eq!(ops, vec![Op::dec(0..2, 3)])
}

#[test]
fn test_optimize_inc_dec() {
    let mut ops = vec![Op::inc(0..1, 1), Op::dec(1..2, 2), Op::dec(2..3, 3)];

    optimize_inc_dec(&mut ops, 1);

    assert_eq!(ops, vec![Op::dec(0..3, 4)])
}

#[test]
fn test_optimize_set_inc() {
    let mut ops = vec![Op::set(0..1, 5), Op::inc(1..2, 2)];

    optimize_inc_dec(&mut ops, 1);

    assert_eq!(ops, vec![Op::set(0..2, 7)])
}

#[test]
fn test_optimize_set_dec() {
    let mut ops = vec![Op::set(0..1, 5), Op::dec(1..2, 2)];

    optimize_inc_dec(&mut ops, 1);

    assert_eq!(ops, vec![Op::set(0..2, 3)])
}

#[test]
fn test_optimize_inc_dec_0() {
    let mut ops = vec![Op::inc(0..1, 1), Op::dec(1..2, 1), Op::inc_ptr(2..3, 3)];

    optimize_inc_dec(&mut ops, 1);

    assert_eq!(ops, vec![Op::inc_ptr(2..3, 3)])
}

#[test]
fn test_optimize_inc_ptr() {
    let mut ops = vec![Op::inc_ptr(0..1, 1), Op::inc_ptr(1..2, 2)];

    optimize_inc_dec(&mut ops, 1);

    assert_eq!(ops, vec![Op::inc_ptr(0..2, 3)])
}

#[test]
fn test_optimize_dec_ptr() {
    let mut ops = vec![Op::dec_ptr(0..1, 1), Op::dec_ptr(1..2, 2)];

    optimize_inc_dec(&mut ops, 1);

    assert_eq!(ops, vec![Op::dec_ptr(0..2, 3)])
}

#[test]
fn test_optimize_inc_ptr_dec() {
    let mut ops = vec![
        Op::inc_ptr(0..1, 1),
        Op::dec_ptr(1..2, 2),
        Op::dec_ptr(2..3, 3),
    ];

    optimize_inc_dec(&mut ops, 1);

    assert_eq!(ops, vec![Op::dec_ptr(0..3, 4)])
}

#[test]
fn test_optimize_inc_dec_ptr_0() {
    let mut ops = vec![
        Op::inc_ptr(0..1, 1),
        Op::dec_ptr(1..2, 1),
        Op::inc(2..3, 3),
    ];

    optimize_inc_dec(&mut ops, 1);

    assert_eq!(ops, vec![Op::inc(2..3, 3)])
}

#[test]
fn test_optimize_zero_loop() {
    let mut ops = vec![Op::d_loop(0..1, vec![Op::dec(1..2, 1)])];

    optimize_zero_loops(&mut ops);

    assert_eq!(ops, vec![Op::set(0..2, 0)])
}
