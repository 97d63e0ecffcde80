use cranefuck::parser::{Parser, MAX_LOOP_DEPTH};
use cranefuck::{parse, Op, OpType, ParserError};

fn ops_of(source: &str) -> Vec<Op> {
    match parse(source) {
        Ok(program) => program.ops,
        Err(error) => panic!("{:?}", error),
    }
}

fn error_of(source: &str) -> ParserError {
    match parse(source) {
        Ok(_) => panic!("parsed"),
        Err(error) => error,
    }
}

#[test]
fn test_parse_empty_source() {
    assert_eq!(ops_of(""), vec![]);
}

#[test]
fn test_parse_every_leaf() {
    assert_eq!(
        ops_of("><+-.,"),
        vec![
            Op::inc_ptr(0..1, 1),
            Op::dec_ptr(1..2, 1),
            Op::inc(2..3, 1),
            Op::dec(3..4, 1),
            Op::put_char(4..5),
            Op::get_char(5..6),
        ]
    );
}

#[test]
fn test_parse_loop_span_covers_both_brackets() {
    assert_eq!(
        ops_of("+[-]."),
        vec![
            Op::inc(0..1, 1),
            Op::d_loop(1..4, vec![Op::dec(2..3, 1)]),
            Op::put_char(4..5),
        ]
    );
}

#[test]
fn test_parse_nested_loops() {
    assert_eq!(
        ops_of("[[+]>[]]"),
        vec![Op::d_loop(
            0..8,
            vec![
                Op::d_loop(1..4, vec![Op::inc(2..3, 1)]),
                Op::inc_ptr(4..5, 1),
                Op::d_loop(5..7, vec![]),
            ]
        )]
    );
}

#[test]
fn test_parse_skips_comments() {
    assert_eq!(
        ops_of("a + b\n- c"),
        vec![Op::inc(2..3, 1), Op::dec(6..7, 1)]
    );
}

#[test]
fn test_parse_positions_are_byte_offsets() {
    // The comment character takes two bytes.
    assert_eq!(ops_of("\u{e9}+"), vec![Op::inc(2..3, 1)]);
    assert_eq!(
        error_of("\u{e9}]"),
        ParserError::BadlyClosedLoop { position: 2 }
    );
}

#[test]
fn test_parse_unmatched_close() {
    assert_eq!(error_of("+]"), ParserError::BadlyClosedLoop { position: 1 });
    assert_eq!(error_of("]"), ParserError::BadlyClosedLoop { position: 0 });
    assert_eq!(
        error_of("[+]]+"),
        ParserError::BadlyClosedLoop { position: 3 }
    );
}

#[test]
fn test_parse_unclosed_open() {
    assert_eq!(error_of("[+"), ParserError::UnclosedLoop { position: 0 });
}

#[test]
fn test_parse_unclosed_reports_innermost() {
    assert_eq!(error_of("[+[-"), ParserError::UnclosedLoop { position: 2 });
    assert_eq!(error_of("[[+]"), ParserError::UnclosedLoop { position: 0 });
    assert_eq!(
        error_of("+[[-]>[.."),
        ParserError::UnclosedLoop { position: 6 }
    );
}

#[test]
fn test_parse_first_error_wins() {
    assert_eq!(error_of("[]][["), ParserError::BadlyClosedLoop { position: 2 });
}

#[test]
fn test_parse_depth_boundary() {
    let fits = "[".repeat(1023) + &"]".repeat(1023);
    let program = parse(&fits);
    assert!(program.is_ok());
    match program {
        Ok(program) => assert_eq!(program.get_statistics(), (1023, 1023)),
        Err(_) => unreachable!(),
    }

    let overflows = "[".repeat(1024) + &"]".repeat(1024);
    assert_eq!(
        error_of(&overflows),
        ParserError::LoopStackOverflow {
            position: 1023,
            max_depth: 1024,
        }
    );
    assert_eq!(MAX_LOOP_DEPTH, 1024);
}

#[test]
fn test_parse_overflow_without_close() {
    assert_eq!(
        error_of(&"[".repeat(1024)),
        ParserError::LoopStackOverflow {
            position: 1023,
            max_depth: 1024,
        }
    );
    assert_eq!(
        error_of(&"[".repeat(1023)),
        ParserError::UnclosedLoop { position: 1022 }
    );
}

#[test]
fn test_parse_depth_is_reused_after_close() {
    let source = "[]".repeat(5000);
    assert_eq!(ops_of(&source).len(), 5000);
}

#[test]
fn test_parse_counts_every_instruction_byte() {
    let source = "++[>,[-]x<.]y[]";
    let meaningful = source
        .bytes()
        .filter(|byte| b"><+-.,[]".contains(byte))
        .count();
    match parse(source) {
        Ok(program) => {
            let (ops, loops) = program.get_statistics();
            assert_eq!((ops, loops), (10, 3));
            assert_eq!(ops + loops, meaningful);
        }
        Err(_) => unreachable!(),
    }
}

#[test]
fn test_parser_starts_with_top_level_frame() {
    let parser = Parser::new();
    assert_eq!(parser.depth(), 1);
    assert_eq!(parser.get_tos(), &(1, vec![]));
}

#[test]
fn test_parser_push_op_fills_innermost_frame() {
    let mut parser = Parser::new();
    parser.push_op(Op::inc(0..1, 1));
    assert_eq!(parser.open_loop(1), Ok(()));
    parser.push_op(Op::dec(2..3, 1));
    assert_eq!(parser.depth(), 2);
    assert_eq!(parser.get_tos(), &(1, vec![Op::dec(2..3, 1)]));
}

#[test]
fn test_parser_close_loop_folds_frame() {
    let mut parser = Parser::new();
    assert_eq!(parser.open_loop(4), Ok(()));
    parser.push_op(Op::put_char(5..6));
    assert_eq!(parser.close_loop(6), Ok(()));
    assert_eq!(parser.depth(), 1);
    assert_eq!(
        parser.get_tos(),
        &(1, vec![Op::d_loop(4..7, vec![Op::put_char(5..6)])])
    );
}

#[test]
fn test_parser_close_loop_at_top_level_fails() {
    let mut parser = Parser::new();
    assert_eq!(
        parser.close_loop(9),
        Err(ParserError::BadlyClosedLoop { position: 9 })
    );
    assert_eq!(parser.depth(), 1);
}

#[test]
fn test_parser_open_loop_respects_bound() {
    let mut parser = Parser::new();
    for position in 0..1023 {
        assert_eq!(parser.open_loop(position), Ok(()));
    }
    assert_eq!(parser.depth(), 1024);
    assert_eq!(
        parser.open_loop(7),
        Err(ParserError::LoopStackOverflow {
            position: 7,
            max_depth: 1024,
        })
    );
    assert_eq!(parser.depth(), 1024);
}

#[test]
fn test_parser_parse_continues_from_its_state() {
    let mut parser = Parser::new();
    parser.push_op(Op::inc(0..1, 1));
    match parser.parse("-") {
        Ok(program) => assert_eq!(program.ops, vec![Op::inc(0..1, 1), Op::dec(0..1, 1)]),
        Err(_) => unreachable!(),
    }
    assert_eq!(parser.depth(), 0);
}

#[test]
fn test_parser_parse_keeps_frames_on_error() {
    let mut parser = Parser::new();
    assert_eq!(
        parser.parse("[+").err(),
        Some(ParserError::UnclosedLoop { position: 0 })
    );
    assert_eq!(parser.depth(), 2);
    assert_eq!(parser.get_tos(), &(0, vec![Op::inc(1..2, 1)]));
}

#[test]
fn test_op_constructors() {
    assert_eq!(Op::inc_ptr(1..2, 3).op_type, OpType::IncPtr(3));
    assert_eq!(Op::dec_ptr(1..2, 3).op_type, OpType::DecPtr(3));
    assert_eq!(Op::inc(1..2, 3).op_type, OpType::Inc(3));
    assert_eq!(Op::dec(1..2, 3).op_type, OpType::Dec(3));
    assert_eq!(Op::set(1..2, 3).op_type, OpType::SetCell(3));
    assert_eq!(Op::add(1..2, -3, 4).op_type, OpType::Add(-3, 4));
    assert_eq!(Op::sub(1..2, 3, 4).op_type, OpType::Sub(3, 4));
    assert_eq!(Op::put_char(1..2).op_type, OpType::PutChar);
    assert_eq!(Op::get_char(1..2).op_type, OpType::GetChar);
    assert_eq!(Op::d_loop(1..2, vec![]).op_type, OpType::DLoop(vec![]));
    assert_eq!(
        Op::i_loop(1..2, vec![], 5, 6).op_type,
        OpType::ILoop(vec![], 5, 6)
    );
    assert_eq!(
        Op::c_loop(1..2, vec![], 5, 6).op_type,
        OpType::CLoop(vec![], 5, 6)
    );
    assert_eq!(Op::t_nz(1..2, vec![], 5).op_type, OpType::TNz(vec![], 5));
    assert_eq!(Op::search_zero(1..2, -1).op_type, OpType::SearchZero(-1));
    assert_eq!(Op::search_zero(7..9, -1).span, 7..9);
}

#[test]
fn test_is_ptr_inc_or_dec() {
    assert!(OpType::IncPtr(1).is_ptr_inc_or_dec());
    assert!(OpType::DecPtr(0).is_ptr_inc_or_dec());
    assert!(!OpType::Inc(1).is_ptr_inc_or_dec());
    assert!(!OpType::SearchZero(1).is_ptr_inc_or_dec());
    assert!(!OpType::DLoop(vec![]).is_ptr_inc_or_dec());
}

#[test]
fn test_get_children_mut() {
    let mut loops = vec![
        OpType::DLoop(vec![]),
        OpType::ILoop(vec![], 0, 1),
        OpType::CLoop(vec![], 0, 1),
        OpType::TNz(vec![], 0),
    ];
    for op_type in loops.iter_mut() {
        match op_type.get_children_mut() {
            Some(children) => children.push(Op::inc(0..1, 1)),
            None => unreachable!(),
        }
    }
    assert_eq!(
        loops,
        vec![
            OpType::DLoop(vec![Op::inc(0..1, 1)]),
            OpType::ILoop(vec![Op::inc(0..1, 1)], 0, 1),
            OpType::CLoop(vec![Op::inc(0..1, 1)], 0, 1),
            OpType::TNz(vec![Op::inc(0..1, 1)], 0),
        ]
    );
    assert!(OpType::Inc(1).get_children_mut().is_none());
    assert!(OpType::PutChar.get_children_mut().is_none());
}

#[test]
fn test_statistics_walk_the_whole_tree() {
    let program = cranefuck::Program {
        ops: vec![
            Op::inc(0..1, 1),
            Op::d_loop(
                1..9,
                vec![
                    Op::i_loop(2..5, vec![Op::dec(3..4, 1)], 0, 1),
                    Op::c_loop(5..6, vec![], 0, 3),
                    Op::t_nz(6..8, vec![Op::d_loop(7..8, vec![])], 0),
                ],
            ),
        ],
    };
    assert_eq!(program.get_statistics(), (7, 4));
}
