use cranefuck::optimizer::{
    optimize_inc_dec, optimize_zero_loops, remove_empty_loops, remove_preceding_loop, MAX_ROUNDS,
};
use cranefuck::{optimize, parse, Op, OpType, Program};

fn program_of(source: &str) -> Program {
    match parse(source) {
        Ok(program) => program,
        Err(error) => panic!("{:?}", error),
    }
}

/// Runs a tree on a tape of zeros and returns what it wrote, or nothing if it
/// took more than the given number of steps.
fn output_of(ops: &[Op], input: &[u8], steps: usize) -> Option<Vec<u8>> {
    let mut tape = vec![0u8; 4096];
    let mut pointer = 0usize;
    let mut read = 0usize;
    let mut output = vec![];
    let mut left = steps;
    if execute(ops, &mut tape, &mut pointer, input, &mut read, &mut output, &mut left) {
        Some(output)
    } else {
        None
    }
}

fn execute(
    ops: &[Op],
    tape: &mut Vec<u8>,
    pointer: &mut usize,
    input: &[u8],
    read: &mut usize,
    output: &mut Vec<u8>,
    left: &mut usize,
) -> bool {
    for op in ops {
        if *left == 0 {
            return false;
        }
        *left -= 1;
        match &op.op_type {
            OpType::IncPtr(count) => *pointer = (*pointer + count) % tape.len(),
            OpType::DecPtr(count) => {
                *pointer = (*pointer + tape.len() - count % tape.len()) % tape.len()
            }
            OpType::Inc(count) => tape[*pointer] = tape[*pointer].wrapping_add(*count),
            OpType::Dec(count) => tape[*pointer] = tape[*pointer].wrapping_sub(*count),
            OpType::SetCell(value) => tape[*pointer] = *value,
            OpType::PutChar => output.push(tape[*pointer]),
            OpType::GetChar => {
                if *read < input.len() {
                    tape[*pointer] = input[*read];
                    *read += 1;
                }
            }
            OpType::DLoop(children) => {
                while tape[*pointer] != 0 {
                    if *left == 0 {
                        return false;
                    }
                    *left -= 1;
                    if !execute(children, tape, pointer, input, read, output, left) {
                        return false;
                    }
                }
            }
            _ => panic!("not produced by the parser or the optimizer"),
        }
    }
    true
}

#[test]
fn test_optimize_fuses_a_run_of_increments() {
    let mut program = program_of("+++");
    let rounds = optimize(&mut program);
    assert_eq!(program.ops, vec![Op::inc(0..3, 3)]);
    assert_eq!(rounds, 2);
}

#[test]
fn test_optimize_empty_program() {
    let mut program = program_of("");
    assert_eq!(optimize(&mut program), 1);
    assert_eq!(program.ops, vec![]);
}

#[test]
fn test_optimize_only_loops() {
    let mut program = program_of("[+][-]");
    assert_eq!(optimize(&mut program), 1);
    assert_eq!(program.ops, vec![]);
}

#[test]
fn test_optimize_is_idempotent() {
    let mut program = program_of("+>[-]<<+-[>++<-]..,[[]]");
    let first = optimize(&mut program);
    assert!(first < MAX_ROUNDS);
    let settled = program.ops;
    let mut again = Program {
        ops: program_of("").ops,
    };
    again.ops = settled;
    let copy = format!("{:?}", again.ops);
    assert_eq!(optimize(&mut again), 1);
    assert_eq!(format!("{:?}", again.ops), copy);
}

#[test]
fn test_optimize_leading_loops_leave_no_trace() {
    let mut with_loops = program_of("[+++.][,[-]]+>");
    let mut without = program_of("+>");
    let rounds = optimize(&mut with_loops);
    assert_eq!(rounds, optimize(&mut without));
    assert_eq!(
        with_loops.ops,
        vec![Op::inc(12..13, 1), Op::inc_ptr(13..14, 1)]
    );
    assert_eq!(without.ops, vec![Op::inc(0..1, 1), Op::inc_ptr(1..2, 1)]);
}

#[test]
fn test_optimize_cancelled_front_uncovers_dead_loop() {
    let mut program = program_of("+-[.]>");
    assert_eq!(optimize(&mut program), 2);
    assert_eq!(program.ops, vec![Op::inc_ptr(5..6, 1)]);
}

#[test]
fn test_optimize_empty_loops_collapse_inside_out() {
    let mut program = program_of("+[[]]");
    let rounds = optimize(&mut program);
    assert_eq!(program.ops, vec![Op::inc(0..1, 1)]);
    assert_eq!(rounds, 3);
}

#[test]
fn test_remove_empty_loops_takes_one_level_each_time() {
    let mut ops = vec![Op::d_loop(0..4, vec![Op::d_loop(1..3, vec![])])];
    assert!(remove_empty_loops(&mut ops));
    assert_eq!(ops, vec![Op::d_loop(0..4, vec![])]);
    assert!(remove_empty_loops(&mut ops));
    assert_eq!(ops, vec![]);
    assert!(!remove_empty_loops(&mut ops));
}

#[test]
fn test_remove_empty_loops_at_the_front_of_a_body() {
    let mut ops = vec![
        Op::d_loop(0..1, vec![]),
        Op::d_loop(1..2, vec![]),
        Op::inc(2..3, 1),
    ];
    assert!(remove_empty_loops(&mut ops));
    assert_eq!(ops, vec![Op::inc(2..3, 1)]);
}

#[test]
fn test_remove_empty_loops_leaves_classified_loops() {
    let mut ops = vec![
        Op::i_loop(0..1, vec![], 0, 1),
        Op::c_loop(1..2, vec![], 0, 1),
        Op::t_nz(2..3, vec![Op::d_loop(3..4, vec![])], 0),
    ];
    assert!(!remove_empty_loops(&mut ops));
    assert_eq!(ops.len(), 3);
}

#[test]
fn test_remove_preceding_loop_stops_at_first_other() {
    let mut ops = vec![
        Op::put_char(0..1),
        Op::d_loop(1..3, vec![]),
    ];
    remove_preceding_loop(&mut ops);
    assert_eq!(ops, vec![Op::put_char(0..1), Op::d_loop(1..3, vec![])]);

    let mut only = vec![Op::d_loop(0..2, vec![]), Op::d_loop(2..4, vec![])];
    remove_preceding_loop(&mut only);
    assert_eq!(only, vec![]);
}

#[test]
fn test_cap_stops_optimization_that_still_progresses() {
    let source = "+".to_string() + &"[".repeat(150) + &"]".repeat(150);
    let mut program = program_of(&source);
    assert_eq!(optimize(&mut program), MAX_ROUNDS);
    assert_eq!(program.get_statistics(), (51, 50));
    assert_eq!(optimize(&mut program), 51);
    assert_eq!(program.ops, vec![Op::inc(0..1, 1)]);
    assert_eq!(optimize(&mut program), 1);
}

#[test]
fn test_zero_loop_needs_exactly_one_decrement_by_one() {
    let mut ops = vec![
        Op::d_loop(0..3, vec![Op::dec(1..2, 2)]),
        Op::d_loop(3..6, vec![Op::inc(4..5, 1)]),
        Op::d_loop(6..10, vec![Op::dec(7..8, 1), Op::dec(8..9, 1)]),
        Op::c_loop(10..13, vec![Op::dec(11..12, 1)], 0, 1),
    ];
    assert!(!optimize_zero_loops(&mut ops));
    assert_eq!(ops.len(), 4);
}

#[test]
fn test_zero_loop_inside_a_loop() {
    let mut ops = vec![Op::d_loop(
        0..6,
        vec![Op::inc_ptr(1..2, 1), Op::d_loop(2..5, vec![Op::dec(3..4, 1)])],
    )];
    assert!(optimize_zero_loops(&mut ops));
    assert_eq!(
        ops,
        vec![Op::d_loop(
            0..6,
            vec![Op::inc_ptr(1..2, 1), Op::set(2..4, 0)]
        )]
    );
}

#[test]
fn test_fusion_wraps_cells() {
    let mut ops = vec![Op::inc(0..1, 200), Op::inc(1..2, 100)];
    assert!(optimize_inc_dec(&mut ops, 0));
    assert_eq!(ops, vec![Op::inc(0..2, 44)]);

    let mut ops = vec![Op::set(0..1, 1), Op::dec(1..2, 2)];
    assert!(optimize_inc_dec(&mut ops, 0));
    assert_eq!(ops, vec![Op::set(0..2, 255)]);

    let mut ops = vec![Op::set(0..1, 255), Op::inc(1..2, 2)];
    assert!(optimize_inc_dec(&mut ops, 0));
    assert_eq!(ops, vec![Op::set(0..2, 1)]);
}

#[test]
fn test_fusion_wraps_pointer_moves() {
    let mut ops = vec![Op::inc_ptr(0..1, usize::MAX), Op::inc_ptr(1..2, 2)];
    assert!(optimize_inc_dec(&mut ops, 0));
    assert_eq!(ops, vec![Op::inc_ptr(0..2, 1)]);

    let mut ops = vec![Op::dec_ptr(0..1, usize::MAX), Op::dec_ptr(1..2, 1)];
    assert!(optimize_inc_dec(&mut ops, 0));
    assert_eq!(ops, vec![Op::dec_ptr(0..2, 0)]);
}

#[test]
fn test_fusion_of_opposites_keeps_the_larger_direction() {
    let mut ops = vec![Op::inc(0..1, 1), Op::dec(1..2, 3)];
    optimize_inc_dec(&mut ops, 0);
    assert_eq!(ops, vec![Op::dec(0..2, 2)]);

    let mut ops = vec![Op::dec(0..1, 5), Op::inc(1..2, 3)];
    optimize_inc_dec(&mut ops, 0);
    assert_eq!(ops, vec![Op::dec(0..2, 2)]);

    let mut ops = vec![Op::dec(0..1, 3), Op::inc(1..2, 5)];
    optimize_inc_dec(&mut ops, 0);
    assert_eq!(ops, vec![Op::inc(0..2, 2)]);

    let mut ops = vec![Op::dec_ptr(0..1, 3), Op::inc_ptr(1..2, 5)];
    optimize_inc_dec(&mut ops, 0);
    assert_eq!(ops, vec![Op::inc_ptr(0..2, 2)]);

    let mut ops = vec![Op::dec_ptr(0..1, 5), Op::inc_ptr(1..2, 3)];
    optimize_inc_dec(&mut ops, 0);
    assert_eq!(ops, vec![Op::dec_ptr(0..2, 2)]);
}

#[test]
fn test_count_does_not_absorb_following_set() {
    let mut ops = vec![Op::inc(0..1, 1), Op::set(1..2, 5)];
    assert!(!optimize_inc_dec(&mut ops, 0));
    assert_eq!(ops, vec![Op::inc(0..1, 1), Op::set(1..2, 5)]);
}

#[test]
fn test_fusion_does_not_look_back_after_cancelling() {
    let mut ops = vec![
        Op::inc_ptr(0..1, 1),
        Op::inc(1..2, 1),
        Op::dec(2..3, 1),
        Op::dec_ptr(3..4, 1),
    ];
    assert!(optimize_inc_dec(&mut ops, 0));
    assert_eq!(ops, vec![Op::inc_ptr(0..1, 1), Op::dec_ptr(3..4, 1)]);
    assert!(optimize_inc_dec(&mut ops, 0));
    assert_eq!(ops, vec![]);
}

#[test]
fn test_fusion_on_empty_sequences() {
    let mut ops = vec![];
    assert!(!optimize_inc_dec(&mut ops, 0));
    let mut ops = vec![Op::d_loop(0..2, vec![])];
    assert!(!optimize_inc_dec(&mut ops, 0));
    assert_eq!(ops, vec![Op::d_loop(0..2, vec![])]);
}

#[test]
fn test_fusion_enters_each_loop_once() {
    let body = vec![
        Op::inc_ptr(1..2, 1),
        Op::inc(2..3, 1),
        Op::dec(3..4, 1),
        Op::dec_ptr(4..5, 1),
    ];
    let mut ops = vec![
        Op::d_loop(0..6, body),
        Op::inc(6..7, 1),
        Op::dec(7..8, 1),
    ];
    assert!(optimize_inc_dec(&mut ops, 0));
    assert_eq!(
        ops,
        vec![Op::d_loop(
            0..6,
            vec![Op::inc_ptr(1..2, 1), Op::dec_ptr(4..5, 1)]
        )]
    );
}

#[test]
fn test_fusion_enters_the_last_loop() {
    let mut ops = vec![
        Op::put_char(0..1),
        Op::d_loop(1..5, vec![Op::inc(2..3, 1), Op::inc(3..4, 1)]),
    ];
    assert!(optimize_inc_dec(&mut ops, 0));
    assert_eq!(
        ops,
        vec![
            Op::put_char(0..1),
            Op::d_loop(1..5, vec![Op::inc(2..4, 2)])
        ]
    );
}

#[test]
fn test_passes_report_no_progress_on_a_fixpoint() {
    let mut ops = program_of(",[>+<-]>.").ops;
    let before = format!("{:?}", ops);
    assert!(!remove_empty_loops(&mut ops));
    assert!(!optimize_zero_loops(&mut ops));
    assert!(!optimize_inc_dec(&mut ops, 0));
    assert_eq!(format!("{:?}", ops), before);
}

#[test]
fn test_optimized_program_writes_the_same_output() {
    let sources = [
        "++++++++[>++++[>++>+++>+++>+<<<<-]>+>+>->>+[<]<-]>>.>---.+++++++..+++.>>.<-.<.+++.------.--------.>>+.>++.",
        ",[.[-],]",
        "[this loop never runs]+++[>++<-]>.[-]+.>+-<.",
        ",>,<[->+<]>.",
        "++>+++<[[-]>[-]<]>.<.",
        "+[-[]]+.",
        "-[>-<-]>.",
    ];
    for source in sources {
        let raw = program_of(source);
        let mut optimized = program_of(source);
        optimize(&mut optimized);
        let expected = output_of(&raw.ops, b"ab", 1_000_000);
        assert!(expected.is_some());
        assert_eq!(output_of(&optimized.ops, b"ab", 1_000_000), expected);
    }
}

#[test]
fn test_optimized_program_may_go_on_where_the_program_hangs() {
    let raw = program_of("+[].");
    let mut optimized = program_of("+[].");
    optimize(&mut optimized);
    assert_eq!(output_of(&raw.ops, b"", 10_000), None);
    assert_eq!(output_of(&optimized.ops, b"", 10_000), Some(vec![1]));
}

#[test]
fn test_optimize_never_adds_instructions() {
    let mut program = program_of("+[-]>[-]<+-[>+<-]");
    let before = program.get_statistics();
    optimize(&mut program);
    let after = program.get_statistics();
    assert!(after.0 <= before.0);
    assert_eq!(before, (14, 3));
    assert_eq!(after, (10, 1));
}
