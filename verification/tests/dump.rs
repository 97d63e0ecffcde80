use cranefuck::{parse, Op, Program};

#[test]
fn test_dump_parsed_program() {
    let program = match parse("+[>,.<-]") {
        Ok(program) => program,
        Err(_) => unreachable!(),
    };
    assert_eq!(
        program.dump(),
        "0x0..0x0        INC 1\n\
         0x1..0x7        DLOOP\n\
         0x2..0x2          INC_PTR 1\n\
         0x3..0x3          GET\n\
         0x4..0x4          PUT\n\
         0x5..0x5          DEC_PTR 1\n\
         0x6..0x6          DEC 1\n"
    );
}

#[test]
fn test_dump_every_kind() {
    let program = Program {
        ops: vec![
            Op::set(1..2, 255),
            Op::add(2..3, -12, 3),
            Op::sub(3..4, 7, 10),
            Op::i_loop(4..300, vec![Op::search_zero(5..6, -1)], -2, 1),
            Op::c_loop(
                0x1234..0xabcdef,
                vec![Op::t_nz(6..7, vec![Op::inc_ptr(6..7, 1000)], isize::MIN)],
                0,
                9,
            ),
            Op::dec_ptr(1..2, 0),
        ],
    };
    let min = isize::MIN.to_string();
    let expected = format!(
        "0x1..0x1        SET 255\n\
         0x2..0x2        ADD offset: -12 multiply: 3\n\
         0x3..0x3        SUB offset: 7 multiply: 10\n\
         0x4..0x12b      ILOOP offset: -2 step: 1\n\
         0x5..0x5          S_ZERO -1 \n\
         0x1234..0xabcdeeCLOOP offset: 0 iterations: 9\n\
         0x6..0x6          TNZ offset: {} \n\
         0x6..0x6            INC_PTR 1000\n\
         0x1..0x1        DEC_PTR 0\n",
        min
    );
    assert_eq!(program.dump(), expected);
}

#[test]
fn test_dump_does_not_cut_long_positions() {
    let program = Program {
        ops: vec![Op::put_char(0x10000000..0x20000001)],
    };
    assert_eq!(program.dump(), "0x10000000..0x20000000PUT\n");
}

#[test]
fn test_dump_empty_program() {
    assert_eq!(Program { ops: vec![] }.dump(), "");
}
