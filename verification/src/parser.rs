//! The parser: one scan over the bytes of a source, with a stack of open
//! frames in place of recursion.

use crate::ast::{
    lemma_nodes_of_push, loop_count, nodes_of, op_count, Kind, Node, Op, Program,
};
use crate::brackets::{
    instruction_bytes, lemma_instruction_bytes_bound, parse_accepts_well_bracketed,
    parse_accounts_for_every_byte, parsed_program_is_in_model, well_bracketed,
};
use crate::errors::ParserError;
use crate::machine::in_model;
use crate::spans::{parsed_program_has_spans_in_order, spans_in_order};
use std::ops::Range;
use vstd::prelude::*;
use vstd::string::StringSliceAdditionalSpecFns;

verus! {

/// The most frames that may be open at once, the top level included.
pub const MAX_LOOP_DEPTH: usize = 1024;

/// The position that the frame of the top level carries. It stands for no
/// bracket.
pub const TOP_LEVEL: usize = 1;

/// The byte `>`: move the data pointer right.
pub const RIGHT: u8 = 0x3e;

/// The byte `<`: move the data pointer left.
pub const LEFT: u8 = 0x3c;

/// The byte `+`: add one to the current cell.
pub const PLUS: u8 = 0x2b;

/// The byte `-`: subtract one from the current cell.
pub const MINUS: u8 = 0x2d;

/// The byte `.`: write the current cell.
pub const DOT: u8 = 0x2e;

/// The byte `,`: read into the current cell.
pub const COMMA: u8 = 0x2c;

/// The byte `[`: open a loop.
pub const OPEN: u8 = 0x5b;

/// The byte `]`: close the innermost open loop.
pub const CLOSE: u8 = 0x5d;

/// The model of one frame of the parser: where its loop was opened, and what
/// has been parsed inside it so far.
pub struct Frame {
    pub open_position: usize,
    pub children: Seq<Node>,
}

/// A parser in the middle of a source: the frames that are open, the top
/// level first.
pub struct Parser {
    stack: Vec<(usize, Vec<Op>)>,
}

/// The model of one frame.
pub open spec fn frame_of(frame: (usize, Vec<Op>)) -> Frame {
    Frame { open_position: frame.0, children: nodes_of(frame.1@) }
}

/// The model of a stack of frames, frame by frame.
pub open spec fn frames_of(stack: Seq<(usize, Vec<Op>)>) -> Seq<Frame> {
    Seq::new(stack.len(), |i: int| frame_of(stack[i]))
}

impl View for Parser {
    type V = Seq<Frame>;

    closed spec fn view(&self) -> Seq<Frame> {
        frames_of(self.stack@)
    }
}

/// The node that one byte of the source stands for by itself, if any: the
/// six instructions that are no bracket, each once, over that byte.
pub open spec fn leaf_at(position: usize, byte: u8) -> Option<Node> {
    let span = Range { start: position, end: (position + 1) as usize };
    if byte == RIGHT {
        Some(Node { kind: Kind::IncPtr(1), span })
    } else if byte == LEFT {
        Some(Node { kind: Kind::DecPtr(1), span })
    } else if byte == PLUS {
        Some(Node { kind: Kind::Inc(1), span })
    } else if byte == MINUS {
        Some(Node { kind: Kind::Dec(1), span })
    } else if byte == DOT {
        Some(Node { kind: Kind::PutChar, span })
    } else if byte == COMMA {
        Some(Node { kind: Kind::GetChar, span })
    } else {
        None
    }
}

/// The frames after a node has been added to the innermost one.
pub open spec fn with_node(frames: Seq<Frame>, node: Node) -> Seq<Frame>
    recommends
        frames.len() >= 1,
{
    frames.update(
        frames.len() - 1,
        Frame {
            open_position: frames.last().open_position,
            children: frames.last().children.push(node),
        },
    )
}

/// The frames after the innermost one has been closed at `position`: it
/// leaves the stack and becomes a dynamic loop in the frame below, over the
/// bytes from its opening bracket to the closing one.
pub open spec fn with_loop_closed(frames: Seq<Frame>, position: usize) -> Seq<Frame>
    recommends
        frames.len() >= 2,
{
    with_node(
        frames.drop_last(),
        Node {
            kind: Kind::DLoop(frames.last().children),
            span: Range { start: frames.last().open_position, end: (position + 1) as usize },
        },
    )
}

/// What one byte at `position` does to the frames, or the error it raises.
/// A byte that is none of the eight instructions is a comment and does
/// nothing.
pub open spec fn scan_byte(frames: Seq<Frame>, position: usize, byte: u8) -> Result<
    Seq<Frame>,
    ParserError,
> {
    if byte == OPEN {
        if frames.len() >= MAX_LOOP_DEPTH {
            Err(ParserError::LoopStackOverflow { position, max_depth: MAX_LOOP_DEPTH })
        } else {
            Ok(frames.push(Frame { open_position: position, children: Seq::empty() }))
        }
    } else if byte == CLOSE {
        if frames.len() > 1 {
            Ok(with_loop_closed(frames, position))
        } else {
            Err(ParserError::BadlyClosedLoop { position })
        }
    } else {
        match leaf_at(position, byte) {
            Some(node) => Ok(with_node(frames, node)),
            None => Ok(frames),
        }
    }
}

/// Where a scan ended: the frames it reached, and the error that stopped it,
/// if one did.
pub struct Scan {
    pub frames: Seq<Frame>,
    pub error: Option<ParserError>,
}

/// The scan of `bytes` from offset `from` on, starting with the given frames.
/// It stops at the first byte that raises an error, with the frames as they
/// were before that byte.
pub open spec fn scan(frames: Seq<Frame>, bytes: Seq<u8>, from: int) -> Scan
    decreases bytes.len() - from,
{
    if from < 0 || from >= bytes.len() {
        Scan { frames, error: None }
    } else {
        match scan_byte(frames, from as usize, bytes[from]) {
            Err(error) => Scan { frames, error: Some(error) },
            Ok(next) => scan(next, bytes, from + 1),
        }
    }
}

/// What a scan amounts to once the source has ended: its error if it had
/// one; else the loop that is still open, the innermost if there are several;
/// else the instructions of the top level.
pub open spec fn outcome(end: Scan) -> Result<Seq<Node>, ParserError> {
    match end.error {
        Some(error) => Err(error),
        None => if end.frames.len() != 1 {
            Err(ParserError::UnclosedLoop { position: end.frames.last().open_position })
        } else {
            Ok(end.frames[0].children)
        },
    }
}

/// The frames of a parser that has seen nothing yet.
pub open spec fn initial_frames() -> Seq<Frame> {
    seq![Frame { open_position: TOP_LEVEL, children: Seq::empty() }]
}

/// The tree that the bytes of a source parse into, or the error in them.
pub open spec fn parsed(bytes: Seq<u8>) -> Result<Seq<Node>, ParserError> {
    outcome(scan(initial_frames(), bytes, 0))
}

impl Parser {
    /// A parser with the frame of the top level open and nothing in it.
    pub fn new() -> (parser: Parser)
        ensures
            parser@ == initial_frames(),
    {
        let mut stack = Vec::new();
        stack.push((TOP_LEVEL, Vec::new()));
        let parser = Parser { stack };
        proof {
            assert(nodes_of(parser.stack@[0].1@) =~= Seq::<Node>::empty());
            assert(parser@ =~= initial_frames());
        }
        parser
    }

    /// The number of open frames, the top level included.
    pub fn depth(&self) -> (depth: usize)
        ensures
            depth == self@.len(),
    {
        self.stack.len()
    }

    /// Adds an instruction to the innermost open frame.
    pub fn push_op(&mut self, op: Op)
        requires
            old(self)@.len() >= 1,
        ensures
            final(self)@ == with_node(old(self)@, op@),
    {
        let tos = self.stack.len() - 1;
        let ghost held = self.stack@;
        self.stack[tos].1.push(op);
        proof {
            lemma_nodes_of_push(held[tos as int].1@, op);
            assert(self@ =~= with_node(old(self)@, op@));
        }
    }

    /// Opens a frame for a loop whose bracket stands at `position`, unless
    /// the stack is full.
    pub fn open_loop(&mut self, position: usize) -> (result: Result<(), ParserError>)
        ensures
            old(self)@.len() >= MAX_LOOP_DEPTH ==> final(self)@ == old(self)@ && result == Err::<
                (),
                ParserError,
            >(ParserError::LoopStackOverflow { position, max_depth: MAX_LOOP_DEPTH }),
            old(self)@.len() < MAX_LOOP_DEPTH ==> result is Ok && final(self)@ == old(self)@.push(
                Frame { open_position: position, children: Seq::empty() },
            ),
    {
        if self.stack.len() >= MAX_LOOP_DEPTH {
            Err(ParserError::LoopStackOverflow { position, max_depth: MAX_LOOP_DEPTH })
        } else {
            self.stack.push((position, Vec::new()));
            proof {
                assert(nodes_of(self.stack@.last().1@) =~= Seq::<Node>::empty());
                assert(self@ =~= old(self)@.push(
                    Frame { open_position: position, children: Seq::empty() },
                ));
            }
            Ok(())
        }
    }

    /// Closes the innermost loop with the bracket at `position`: its frame
    /// becomes a dynamic loop in the frame below. Fails if no loop is open.
    pub fn close_loop(&mut self, position: usize) -> (result: Result<(), ParserError>)
        requires
            old(self)@.len() >= 1,
            position < usize::MAX,
        ensures
            old(self)@.len() == 1 ==> final(self)@ == old(self)@ && result == Err::<
                (),
                ParserError,
            >(ParserError::BadlyClosedLoop { position }),
            old(self)@.len() > 1 ==> result is Ok && final(self)@ == with_loop_closed(
                old(self)@,
                position,
            ),
    {
        let tos = self.stack.len() - 1;
        if tos > 0 {
            let ops = self.stack.remove(tos);
            proof {
                assert(self@ =~= old(self)@.drop_last());
            }
            self.push_op(Op::d_loop(ops.0..position + 1, ops.1));
            Ok(())
        } else {
            Err(ParserError::BadlyClosedLoop { position })
        }
    }

    /// The innermost open frame: the position of its bracket and what it
    /// holds so far.
    pub fn get_tos(&self) -> (tos: &(usize, Vec<Op>))
        requires
            self@.len() >= 1,
        ensures
            frame_of(*tos) == self@.last(),
    {
        &self.stack[self.stack.len() - 1]
    }

    /// Scans `source` from the state the parser is in. On success the
    /// program is what the frame of the top level held at the end, and the
    /// parser is left without frames; on an error it is left as the error
    /// found it.
    pub fn parse(&mut self, source: &str) -> (result: Result<Program, ParserError>)
        requires
            old(self)@.len() >= 1,
        ensures
            match outcome(scan(old(self)@, source.spec_bytes(), 0)) {
                Ok(nodes) => result matches Ok(program) && program@ == nodes && final(self)@.len()
                    == 0,
                Err(error) => result matches Err(found) && found == error && final(self)@ == scan(
                    old(self)@,
                    source.spec_bytes(),
                    0,
                ).frames,
            },
            source.spec_bytes().len() <= usize::MAX,
    {
        let bytes = source.as_bytes();
        let mut pos: usize = 0;
        while pos < bytes.len()
            invariant
                pos <= bytes.len(),
                bytes@ == source.spec_bytes(),
                self@.len() >= 1,
                scan(old(self)@, bytes@, 0) == scan(self@, bytes@, pos as int),
            decreases bytes.len() - pos,
        {
            let byte = bytes[pos];
            if byte == RIGHT {
                self.push_op(Op::inc_ptr(pos..pos + 1, 1));
            } else if byte == LEFT {
                self.push_op(Op::dec_ptr(pos..pos + 1, 1));
            } else if byte == PLUS {
                self.push_op(Op::inc(pos..pos + 1, 1));
            } else if byte == MINUS {
                self.push_op(Op::dec(pos..pos + 1, 1));
            } else if byte == DOT {
                self.push_op(Op::put_char(pos..pos + 1));
            } else if byte == COMMA {
                self.push_op(Op::get_char(pos..pos + 1));
            } else if byte == OPEN {
                self.open_loop(pos)?;
            } else if byte == CLOSE {
                self.close_loop(pos)?;
            }
            pos += 1;
        }

        if self.depth() != 1 {
            return Err(ParserError::UnclosedLoop { position: self.get_tos().0 });
        }
        Ok(Program { ops: self.stack.remove(0).1 })
    }
}

/// Parses a source into a program. Positions, in spans and in errors, are
/// byte offsets into `source`; a byte that is none of the eight instructions
/// is skipped.
///
/// A program holds as many instructions and loops together as the source has
/// instruction bytes, with spans in the order of the source, and holds only
/// instructions that the model of the machine covers; an error points at a
/// byte of the source. The source parses if and only if it is well bracketed.
pub fn parse(source: &str) -> (result: Result<Program, ParserError>)
    ensures
        match parsed(source.spec_bytes()) {
            Ok(nodes) => result matches Ok(program) && program@ == nodes,
            Err(error) => result matches Err(found) && found == error,
        },
        result is Ok <==> well_bracketed(source.spec_bytes()),
        result matches Ok(program) ==> op_count(program@) + loop_count(program@)
            == instruction_bytes(source.spec_bytes()) <= usize::MAX,
        result matches Ok(program) ==> spans_in_order(
            program@,
            0,
            source.spec_bytes().len() as int,
        ),
        result matches Ok(program) ==> in_model(program@),
        result matches Err(error) ==> error.position() < source.spec_bytes().len(),
{
    let result = Parser::new().parse(source);
    proof {
        parse_accounts_for_every_byte(source.spec_bytes());
        parse_accepts_well_bracketed(source.spec_bytes());
        lemma_instruction_bytes_bound(source.spec_bytes());
        parsed_program_has_spans_in_order(source.spec_bytes());
        parsed_program_is_in_model(source.spec_bytes());
    }
    result
}

} // verus!
