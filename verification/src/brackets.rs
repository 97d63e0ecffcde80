//! What the parser accepts and what it reports, stated over the bytes of the
//! source alone, and proved of the scan.

use crate::ast::{
    lemma_counts_concat, lemma_counts_single, loop_count, node_loop_count, node_op_count, op_count,
    Kind, Node,
};
use crate::errors::ParserError;
use crate::machine::{in_model, lemma_in_model_concat, lemma_in_model_single, node_in_model};
use crate::parser::{
    initial_frames, leaf_at, parsed, scan, scan_byte, with_loop_closed, with_node, Frame, CLOSE,
    COMMA, DOT, LEFT, MAX_LOOP_DEPTH, MINUS, OPEN, PLUS, RIGHT,
};
use std::ops::Range;
use vstd::prelude::*;

verus! {

/// Whether a byte is one of the eight instructions.
pub open spec fn is_instruction(byte: u8) -> bool {
    byte == RIGHT || byte == LEFT || byte == PLUS || byte == MINUS || byte == DOT || byte == COMMA
        || byte == OPEN || byte == CLOSE
}

/// The number of bytes of a source that are instructions.
pub open spec fn instruction_bytes(bytes: Seq<u8>) -> nat
    decreases bytes.len(),
{
    if bytes.len() == 0 {
        0
    } else {
        (if is_instruction(bytes[0]) {
            1nat
        } else {
            0nat
        }) + instruction_bytes(bytes.skip(1))
    }
}

/// A source has no more instruction bytes than bytes.
pub proof fn lemma_instruction_bytes_bound(bytes: Seq<u8>)
    ensures
        instruction_bytes(bytes) <= bytes.len(),
    decreases bytes.len(),
{
    if bytes.len() > 0 {
        lemma_instruction_bytes_bound(bytes.skip(1));
    }
}

/// The number of loops that are open after the first `upto` bytes: the
/// opening brackets among them less the closing ones.
pub open spec fn open_loops(bytes: Seq<u8>, upto: int) -> int
    decreases upto,
{
    if upto <= 0 {
        0
    } else {
        open_loops(bytes, upto - 1) + if bytes[upto - 1] == OPEN {
            1int
        } else if bytes[upto - 1] == CLOSE {
            -1int
        } else {
            0int
        }
    }
}

/// Whether the nesting stays in bounds over the first `upto` bytes: at no
/// point is a loop closed that was not opened, and at no point are there as
/// many loops open as the stack has frames, one of which is the top level's.
pub open spec fn nesting_in_bounds(bytes: Seq<u8>, upto: int) -> bool {
    forall|k: int| 0 <= k <= upto ==> 0 <= #[trigger] open_loops(bytes, k) < MAX_LOOP_DEPTH
}

/// Whether a source is well formed: its nesting stays in bounds throughout,
/// and no loop is open at its end.
pub open spec fn well_bracketed(bytes: Seq<u8>) -> bool {
    nesting_in_bounds(bytes, bytes.len() as int) && open_loops(bytes, bytes.len() as int) == 0
}

/// What the frames of a scan hold: the instructions and the loops parsed so
/// far, and one for every bracket that is still open.
pub open spec fn frames_weight(frames: Seq<Frame>) -> nat
    decreases frames.len(),
{
    if frames.len() == 0 {
        0
    } else {
        frames_weight(frames.drop_last()) + op_count(frames.last().children) + loop_count(
            frames.last().children,
        ) + 1
    }
}

/// A node added to the innermost frame adds what it counts.
proof fn lemma_weight_with_node(frames: Seq<Frame>, node: Node)
    requires
        frames.len() >= 1,
    ensures
        frames_weight(with_node(frames, node)) == frames_weight(frames) + node_op_count(node)
            + node_loop_count(node),
{
    let after = with_node(frames, node);
    assert(after.drop_last() =~= frames.drop_last());
    assert(frames.last().children.push(node) =~= frames.last().children + seq![node]);
    lemma_counts_concat(frames.last().children, seq![node]);
    lemma_counts_single(node);
}

/// Every byte that is an instruction adds one to what the frames hold, and
/// no other byte adds anything.
proof fn lemma_weight_step(frames: Seq<Frame>, position: usize, byte: u8)
    requires
        frames.len() >= 1,
    ensures
        scan_byte(frames, position, byte) matches Ok(next) ==> frames_weight(next)
            == frames_weight(frames) + if is_instruction(byte) {
            1nat
        } else {
            0nat
        },
{
    if byte == OPEN {
        let next = frames.push(Frame { open_position: position, children: Seq::empty() });
        assert(next.drop_last() =~= frames);
    } else if byte == CLOSE {
        if frames.len() > 1 {
            let below = frames.drop_last();
            let closed = with_loop_closed(frames, position);
            lemma_weight_with_node(below, closed[closed.len() - 1].children.last());
        }
    } else {
        match leaf_at(position, byte) {
            Some(node) => lemma_weight_with_node(frames, node),
            None => {},
        }
    }
}

/// Whether the bracket at `position` opens a loop that is still open after
/// the first `upto` bytes, with `below` loops open around it.
pub open spec fn opens_at(bytes: Seq<u8>, position: int, upto: int, below: int) -> bool {
    &&& 0 <= position < upto
    &&& bytes[position] == OPEN
    &&& open_loops(bytes, position) == below
    &&& forall|k: int| position < k <= upto ==> #[trigger] open_loops(bytes, k) > below
}

/// Whether the bracket at `position` opens the innermost of the loops that
/// the source leaves open.
pub open spec fn innermost_unclosed(bytes: Seq<u8>, position: int) -> bool {
    opens_at(bytes, position, bytes.len() as int, open_loops(bytes, bytes.len() as int) - 1)
}

/// Whether the frames of a scan are in step with the first `upto` bytes:
/// there is one for the top level and one for each loop still open, each of
/// these opened at its bracket.
pub open spec fn in_step(frames: Seq<Frame>, bytes: Seq<u8>, upto: int) -> bool {
    &&& frames.len() == 1 + open_loops(bytes, upto)
    &&& forall|j: int|
        1 <= j < frames.len() ==> opens_at(
            bytes,
            (#[trigger] frames[j]).open_position as int,
            upto,
            j - 1,
        )
}

/// One byte that raises no error keeps the frames in step.
proof fn lemma_step_in_step(frames: Seq<Frame>, bytes: Seq<u8>, from: int)
    requires
        0 <= from < bytes.len() <= usize::MAX,
        frames.len() >= 1,
        in_step(frames, bytes, from),
        scan_byte(frames, from as usize, bytes[from]) is Ok,
    ensures
        in_step(scan_byte(frames, from as usize, bytes[from])->Ok_0, bytes, from + 1),
{
    let next = scan_byte(frames, from as usize, bytes[from])->Ok_0;
    let byte = bytes[from];
    assert(open_loops(bytes, from + 1) == open_loops(bytes, from) + if byte == OPEN {
        1int
    } else if byte == CLOSE {
        -1int
    } else {
        0int
    });
    assert(open_loops(bytes, from + 1) == next.len() - 1);
    assert forall|j: int| 1 <= j < next.len() implies opens_at(
        bytes,
        (#[trigger] next[j]).open_position as int,
        from + 1,
        j - 1,
    ) by {
        let position = next[j].open_position as int;
        if j < frames.len() {
            assert(position == frames[j].open_position);
            assert(opens_at(bytes, position, from, j - 1));
        }
        assert forall|k: int| position < k <= from + 1 implies #[trigger] open_loops(bytes, k) > j
            - 1 by {
            if k <= from {
                assert(opens_at(bytes, position, from, j - 1));
            }
        }
    }
}

/// What holds of a scan that starts in step with the brackets seen so far.
///
/// If it ends without an error, the nesting stayed in bounds to the end of
/// the source; the frames at the end are in step with the whole source; and
/// they hold one more for every instruction byte scanned.
///
/// If it ends with an error, the error points at the first byte that takes
/// the nesting out of bounds, and says in which direction.
proof fn lemma_scan(frames: Seq<Frame>, bytes: Seq<u8>, from: int)
    requires
        0 <= from <= bytes.len() <= usize::MAX,
        in_step(frames, bytes, from),
        nesting_in_bounds(bytes, from),
    ensures
        ({
            let end = scan(frames, bytes, from);
            match end.error {
                None => {
                    &&& nesting_in_bounds(bytes, bytes.len() as int)
                    &&& in_step(end.frames, bytes, bytes.len() as int)
                    &&& frames_weight(end.frames) == frames_weight(frames) + instruction_bytes(
                        bytes.skip(from),
                    )
                },
                Some(error) => {
                    &&& from <= error.position() < bytes.len()
                    &&& nesting_in_bounds(bytes, error.position() as int)
                    &&& !nesting_in_bounds(bytes, error.position() + 1)
                    &&& if bytes[error.position() as int] == CLOSE {
                        error == (ParserError::BadlyClosedLoop { position: error.position() })
                    } else {
                        error == (ParserError::LoopStackOverflow {
                            position: error.position(),
                            max_depth: MAX_LOOP_DEPTH,
                        })
                    }
                },
            }
        }),
    decreases bytes.len() - from,
{
    if from < bytes.len() {
        let byte = bytes[from];
        assert(open_loops(bytes, from) >= 0);
        assert(bytes.skip(from).skip(1) =~= bytes.skip(from + 1));
        assert(bytes.skip(from)[0] == byte);
        match scan_byte(frames, from as usize, byte) {
            Err(error) => {
                assert(error.position() == from);
                assert(!(0 <= open_loops(bytes, from + 1) < MAX_LOOP_DEPTH));
            },
            Ok(next) => {
                lemma_weight_step(frames, from as usize, byte);
                lemma_step_in_step(frames, bytes, from);
                assert(nesting_in_bounds(bytes, from + 1)) by {
                    assert forall|k: int| 0 <= k <= from + 1 implies 0 <= #[trigger] open_loops(
                        bytes,
                        k,
                    ) < MAX_LOOP_DEPTH by {
                        if k <= from {
                            assert(0 <= open_loops(bytes, k) < MAX_LOOP_DEPTH);
                        }
                    }
                }
                lemma_scan(next, bytes, from + 1);
            },
        }
    } else {
        assert(bytes.skip(from) =~= Seq::<u8>::empty());
    }
}

/// The scan of a whole source from the frames of a fresh parser.
proof fn lemma_scan_source(bytes: Seq<u8>)
    requires
        bytes.len() <= usize::MAX,
    ensures
        ({
            let end = scan(initial_frames(), bytes, 0);
            match end.error {
                None => {
                    &&& nesting_in_bounds(bytes, bytes.len() as int)
                    &&& in_step(end.frames, bytes, bytes.len() as int)
                    &&& frames_weight(end.frames) == 1 + instruction_bytes(bytes)
                },
                Some(error) => {
                    &&& error.position() < bytes.len()
                    &&& nesting_in_bounds(bytes, error.position() as int)
                    &&& !nesting_in_bounds(bytes, error.position() + 1)
                    &&& if bytes[error.position() as int] == CLOSE {
                        error == (ParserError::BadlyClosedLoop { position: error.position() })
                    } else {
                        error == (ParserError::LoopStackOverflow {
                            position: error.position(),
                            max_depth: MAX_LOOP_DEPTH,
                        })
                    }
                },
            }
        }),
{
    let frames = initial_frames();
    assert(frames.drop_last() =~= Seq::<Frame>::empty());
    assert(frames_weight(frames.drop_last()) == 0);
    assert(frames_weight(frames) == 1);
    assert(bytes.skip(0) =~= bytes);
    lemma_scan(frames, bytes, 0);
}

/// Every instruction of the source is in the tree, and every error points
/// into the source.
///
/// Where a source parses, the tree holds as many instructions and loops
/// together as the source has instruction bytes: one instruction for each of
/// the six that are no bracket, and a loop that is also an instruction for
/// each pair of brackets. Where it does not, the position of the error is the
/// offset of a byte of the source.
pub proof fn parse_accounts_for_every_byte(bytes: Seq<u8>)
    requires
        bytes.len() <= usize::MAX,
    ensures
        parsed(bytes) matches Ok(nodes) ==> op_count(nodes) + loop_count(nodes)
            == instruction_bytes(bytes),
        parsed(bytes) matches Err(error) ==> error.position() < bytes.len(),
{
    lemma_scan_source(bytes);
    let end = scan(initial_frames(), bytes, 0);
    if end.error is None {
        if end.frames.len() == 1 {
            assert(end.frames.drop_last() =~= Seq::<Frame>::empty());
            assert(frames_weight(end.frames.drop_last()) == 0);
        } else {
            let top = end.frames.len() - 1;
            assert(opens_at(
                bytes,
                end.frames[top].open_position as int,
                bytes.len() as int,
                top - 1,
            ));
        }
    }
}

/// The bracket law: a source parses if and only if it is well bracketed,
/// which is to say that its brackets are balanced and never nest deeper than
/// the stack of frames allows.
pub proof fn parse_accepts_well_bracketed(bytes: Seq<u8>)
    requires
        bytes.len() <= usize::MAX,
    ensures
        parsed(bytes) is Ok <==> well_bracketed(bytes),
{
    lemma_scan_source(bytes);
    let end = scan(initial_frames(), bytes, 0);
    match end.error {
        Some(error) => {
            if well_bracketed(bytes) {
                lemma_bounds_are_prefix_closed(bytes, error.position() + 1, bytes.len() as int);
            }
        },
        None => {},
    }
}

/// Nesting that stays in bounds over a stretch stays in bounds over every
/// shorter one.
proof fn lemma_bounds_are_prefix_closed(bytes: Seq<u8>, shorter: int, longer: int)
    requires
        shorter <= longer,
        nesting_in_bounds(bytes, longer),
    ensures
        nesting_in_bounds(bytes, shorter),
{
    assert forall|k: int| 0 <= k <= shorter implies 0 <= #[trigger] open_loops(bytes, k)
        < MAX_LOOP_DEPTH by {
        assert(0 <= open_loops(bytes, k) < MAX_LOOP_DEPTH);
    }
}

/// The first byte that takes the nesting out of bounds is where the parser
/// fails.
proof fn lemma_fails_at_first_violation(bytes: Seq<u8>, position: int)
    requires
        0 <= position < bytes.len() <= usize::MAX,
        nesting_in_bounds(bytes, position),
        !nesting_in_bounds(bytes, position + 1),
    ensures
        scan(initial_frames(), bytes, 0).error matches Some(error) && error.position() == position,
{
    lemma_scan_source(bytes);
    let end = scan(initial_frames(), bytes, 0);
    match end.error {
        None => {
            lemma_bounds_are_prefix_closed(bytes, position + 1, bytes.len() as int);
        },
        Some(error) => {
            if error.position() < position {
                lemma_bounds_are_prefix_closed(bytes, error.position() + 1, position);
            } else if error.position() > position {
                lemma_bounds_are_prefix_closed(bytes, position + 1, error.position() as int);
            }
        },
    }
}

/// A closing bracket with no loop open is reported at its own offset: where
/// the nesting has stayed in bounds up to a closing bracket and no loop is
/// open there, that bracket is the error.
pub proof fn unmatched_close_is_reported(bytes: Seq<u8>, position: usize)
    requires
        position < bytes.len() <= usize::MAX,
        nesting_in_bounds(bytes, position as int),
        open_loops(bytes, position as int) == 0,
        bytes[position as int] == CLOSE,
    ensures
        parsed(bytes) == Err::<Seq<Node>, ParserError>(ParserError::BadlyClosedLoop { position }),
{
    assert(open_loops(bytes, position + 1) == -1);
    lemma_fails_at_first_violation(bytes, position as int);
    lemma_scan_source(bytes);
}

/// An opening bracket that the stack has no frame for is reported at its own
/// offset, together with the bound: where the nesting has stayed in bounds up
/// to an opening bracket and every frame is in use there, that bracket is the
/// error.
pub proof fn overflowing_open_is_reported(bytes: Seq<u8>, position: usize)
    requires
        position < bytes.len() <= usize::MAX,
        nesting_in_bounds(bytes, position as int),
        open_loops(bytes, position as int) == MAX_LOOP_DEPTH - 1,
        bytes[position as int] == OPEN,
    ensures
        parsed(bytes) == Err::<Seq<Node>, ParserError>(
            ParserError::LoopStackOverflow { position, max_depth: MAX_LOOP_DEPTH },
        ),
{
    assert(open_loops(bytes, position + 1) == MAX_LOOP_DEPTH);
    lemma_fails_at_first_violation(bytes, position as int);
    lemma_scan_source(bytes);
}

/// A loop that is never closed is reported at its opening bracket, and of
/// several the innermost: where the nesting stays in bounds to the end of
/// the source and loops are open there, the error points at the bracket
/// that opened the last of them.
pub proof fn unclosed_loop_is_reported(bytes: Seq<u8>)
    requires
        bytes.len() <= usize::MAX,
        nesting_in_bounds(bytes, bytes.len() as int),
        open_loops(bytes, bytes.len() as int) > 0,
    ensures
        parsed(bytes) matches Err(ParserError::UnclosedLoop { position }) && innermost_unclosed(
            bytes,
            position as int,
        ),
{
    lemma_scan_source(bytes);
    let end = scan(initial_frames(), bytes, 0);
    match end.error {
        Some(error) => {
            lemma_bounds_are_prefix_closed(bytes, error.position() + 1, bytes.len() as int);
        },
        None => {
            let top = end.frames.len() - 1;
            assert(opens_at(
                bytes,
                end.frames[top].open_position as int,
                bytes.len() as int,
                top - 1,
            ));
        },
    }
}

/// Whether the model of the machine covers everything in the frames.
spec fn frames_in_model(frames: Seq<Frame>) -> bool {
    forall|j: int| 0 <= j < frames.len() ==> in_model((#[trigger] frames[j]).children)
}

/// A node added to the innermost frame keeps the frames within the model if
/// the model covers the node.
proof fn lemma_with_node_in_model(frames: Seq<Frame>, node: Node)
    requires
        frames.len() >= 1,
        frames_in_model(frames),
        node_in_model(node),
    ensures
        frames_in_model(with_node(frames, node)),
{
    let children = frames.last().children;
    assert(children.push(node) =~= children + seq![node]);
    lemma_in_model_single(node);
    lemma_in_model_concat(children, seq![node]);
}

/// A scan keeps the frames within the model.
proof fn lemma_scan_in_model(frames: Seq<Frame>, bytes: Seq<u8>, from: int)
    requires
        0 <= from,
        frames.len() >= 1,
        frames_in_model(frames),
    ensures
        frames_in_model(scan(frames, bytes, from).frames),
        scan(frames, bytes, from).frames.len() >= 1,
    decreases bytes.len() - from,
{
    if from < bytes.len() {
        let byte = bytes[from];
        let position = from as usize;
        match scan_byte(frames, position, byte) {
            Err(_) => {},
            Ok(next) => {
                if byte == OPEN {
                    assert(in_model(Seq::<Node>::empty()));
                } else if byte == CLOSE {
                    let closed = Node {
                        kind: Kind::DLoop(frames.last().children),
                        span: Range {
                            start: frames.last().open_position,
                            end: (position + 1) as usize,
                        },
                    };
                    lemma_with_node_in_model(frames.drop_last(), closed);
                } else {
                    match leaf_at(position, byte) {
                        Some(node) => lemma_with_node_in_model(frames, node),
                        None => {},
                    }
                }
                lemma_scan_in_model(next, bytes, from + 1);
            },
        }
    }
}

/// A parsed program runs in the model of the machine: the parser builds no
/// instruction that the model does not cover.
pub proof fn parsed_program_is_in_model(bytes: Seq<u8>)
    ensures
        parsed(bytes) matches Ok(nodes) ==> in_model(nodes),
{
    let frames = initial_frames();
    assert(in_model(frames[0].children));
    lemma_scan_in_model(frames, bytes, 0);
}

} // verus!
