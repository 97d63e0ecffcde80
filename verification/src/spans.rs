//! Spans keep the order of the source: within a sequence every instruction
//! covers at least one byte, none overlaps the next, and a body lies within
//! its loop. The parser builds trees of this kind and the optimizer keeps
//! them so.

use crate::ast::{lemma_counts_concat, lemma_counts_single, node_op_count, op_count, Kind, Node};
use crate::optimizer::{
    collapsed_node, emptied_inside, fuse_pair, fused, fused_inside, is_empty_loop, is_zero_loop,
    merged_node, optimized, round, round_progresses, without_empty_loops, without_leading_loops,
    zero_loops_collapsed, Fusion,
};
use crate::parser::{
    initial_frames, leaf_at, parsed, scan, scan_byte, with_node, Frame, CLOSE, OPEN,
};
use std::ops::Range;
use vstd::prelude::*;

verus! {

/// Whether the spans of a sequence are in order between two offsets: the
/// first instruction starts at `from` or later, each ends where the next
/// starts or before, and the last ends at `to` or before.
pub open spec fn spans_in_order(ops: Seq<Node>, from: int, to: int) -> bool
    decreases ops,
{
    if ops.len() == 0 {
        from <= to
    } else {
        &&& from <= ops[0].span.start
        &&& node_spans_in_order(ops[0])
        &&& spans_in_order(ops.skip(1), ops[0].span.end as int, to)
    }
}

/// Whether an instruction covers at least one byte and the spans of its
/// body, if it has one, are in order within its own.
pub open spec fn node_spans_in_order(node: Node) -> bool
    decreases node,
{
    &&& node.span.start < node.span.end
    &&& match node.kind {
        Kind::DLoop(body) => spans_in_order(body, node.span.start as int, node.span.end as int),
        Kind::ILoop(body, _, _) => spans_in_order(
            body,
            node.span.start as int,
            node.span.end as int,
        ),
        Kind::CLoop(body, _, _) => spans_in_order(
            body,
            node.span.start as int,
            node.span.end as int,
        ),
        Kind::TNz(body, _) => spans_in_order(body, node.span.start as int, node.span.end as int),
        _ => true,
    }
}

/// Spans in order between two offsets lie between them.
proof fn lemma_spans_bounded(ops: Seq<Node>, from: int, to: int)
    requires
        spans_in_order(ops, from, to),
    ensures
        from <= to,
        ops.len() > 0 ==> from <= ops[0].span.start < ops[0].span.end <= to,
    decreases ops,
{
    if ops.len() > 0 {
        assert(node_spans_in_order(ops[0]));
        lemma_spans_bounded(ops.skip(1), ops[0].span.end as int, to);
    }
}

/// Spans in order between two offsets are in order between wider ones.
proof fn lemma_spans_widen(ops: Seq<Node>, from: int, to: int, wider_from: int, wider_to: int)
    requires
        spans_in_order(ops, from, to),
        wider_from <= from,
        to <= wider_to,
    ensures
        spans_in_order(ops, wider_from, wider_to),
    decreases ops,
{
    if ops.len() > 0 {
        lemma_spans_widen(ops.skip(1), ops[0].span.end as int, to, ops[0].span.end as int, wider_to);
    }
}

/// An instruction that starts where a sequence ends, or later, can follow it.
proof fn lemma_spans_push(ops: Seq<Node>, node: Node, from: int, mid: int, to: int)
    requires
        spans_in_order(ops, from, mid),
        mid <= node.span.start,
        node_spans_in_order(node),
        node.span.end <= to,
    ensures
        spans_in_order(ops.push(node), from, to),
    decreases ops,
{
    let pushed = ops.push(node);
    if ops.len() == 0 {
        assert(pushed.skip(1) =~= Seq::<Node>::empty());
        assert(pushed[0] == node);
        assert(spans_in_order(pushed.skip(1), node.span.end as int, to));
    } else {
        assert(pushed.skip(1) =~= ops.skip(1).push(node));
        assert(pushed[0] == ops[0]);
        lemma_spans_push(ops.skip(1), node, ops[0].span.end as int, mid, to);
    }
}

/// An instruction in front of a sequence that starts where it ends.
proof fn lemma_spans_cons(node: Node, rest: Seq<Node>, from: int, to: int)
    requires
        from <= node.span.start,
        node_spans_in_order(node),
        spans_in_order(rest, node.span.end as int, to),
    ensures
        spans_in_order(seq![node] + rest, from, to),
{
    let joined = seq![node] + rest;
    assert(joined[0] == node);
    assert(joined.skip(1) =~= rest);
}

/// The elision of leading loops keeps the spans in order.
proof fn lemma_elided_spans(ops: Seq<Node>, from: int, to: int)
    requires
        spans_in_order(ops, from, to),
    ensures
        spans_in_order(without_leading_loops(ops), from, to),
    decreases ops.len(),
{
    if ops.len() > 0 && ops[0].kind is DLoop {
        assert(node_spans_in_order(ops[0]));
        lemma_spans_widen(ops.skip(1), ops[0].span.end as int, to, from, to);
        lemma_elided_spans(ops.skip(1), from, to);
    }
}

/// The empty-loop pass keeps the spans in order.
proof fn lemma_emptied_spans(ops: Seq<Node>, from: int, to: int)
    requires
        spans_in_order(ops, from, to),
    ensures
        spans_in_order(without_empty_loops(ops), from, to),
    decreases ops,
{
    if ops.len() > 0 {
        let rest = ops.skip(1);
        let end = ops[0].span.end as int;
        assert(node_spans_in_order(ops[0]) && spans_in_order(rest, end, to));
        if is_empty_loop(ops[0]) {
            lemma_spans_widen(rest, end, to, from, to);
            lemma_emptied_spans(rest, from, to);
        } else {
            lemma_emptied_spans(rest, end, to);
            match ops[0].kind {
                Kind::DLoop(body) => lemma_emptied_spans(body, ops[0].span.start as int, end),
                _ => {},
            }
            assert(node_spans_in_order(emptied_inside(ops[0])));
            lemma_spans_cons(emptied_inside(ops[0]), without_empty_loops(rest), from, to);
        }
    }
}

/// The zero-loop pass keeps the spans in order.
proof fn lemma_collapsed_spans(ops: Seq<Node>, from: int, to: int)
    requires
        spans_in_order(ops, from, to),
    ensures
        spans_in_order(zero_loops_collapsed(ops), from, to),
    decreases ops,
{
    if ops.len() > 0 {
        let rest = ops.skip(1);
        let start = ops[0].span.start as int;
        let end = ops[0].span.end as int;
        let first = collapsed_node(ops[0]);
        assert(node_spans_in_order(ops[0]) && spans_in_order(rest, end, to));
        lemma_collapsed_spans(rest, end, to);
        match ops[0].kind {
            Kind::DLoop(body) => {
                if is_zero_loop(ops[0]) {
                    lemma_spans_bounded(body, start, end);
                } else {
                    lemma_collapsed_spans(body, start, end);
                }
            },
            _ => {},
        }
        assert(node_spans_in_order(first));
        lemma_spans_widen(zero_loops_collapsed(rest), end, to, first.span.end as int, to);
        assert(zero_loops_collapsed(ops) =~= seq![first] + zero_loops_collapsed(rest));
        lemma_spans_cons(first, zero_loops_collapsed(rest), from, to);
    } else {
        assert(zero_loops_collapsed(ops) =~= ops);
    }
}

/// The fusion pass keeps the spans in order.
proof fn lemma_fused_spans(ops: Seq<Node>, from: int, to: int)
    requires
        spans_in_order(ops, from, to),
    ensures
        spans_in_order(fused(ops), from, to),
    decreases op_count(ops),
{
    if ops.len() > 0 {
        let rest = ops.skip(1);
        let end = ops[0].span.end as int;
        assert(op_count(ops) == node_op_count(ops[0]) + op_count(rest));
        assert(node_spans_in_order(ops[0]) && spans_in_order(rest, end, to));
        match ops[0].kind {
            Kind::DLoop(body) => lemma_fused_spans(body, ops[0].span.start as int, end),
            _ => {},
        }
        assert(node_spans_in_order(fused_inside(ops[0])));
        if ops.len() == 1 {
            assert(rest =~= Seq::<Node>::empty());
            lemma_spans_cons(fused_inside(ops[0]), rest, from, to);
            assert(seq![fused_inside(ops[0])] + rest =~= seq![fused_inside(ops[0])]);
        } else {
            let tail = ops.skip(2);
            assert(rest.skip(1) =~= tail);
            assert(rest[0] == ops[1]);
            assert(op_count(rest) == node_op_count(rest[0]) + op_count(tail));
            assert(node_spans_in_order(ops[1]) && spans_in_order(tail, ops[1].span.end as int, to));
            match fuse_pair(ops[0].kind, ops[1].kind) {
                Fusion::Cancelled => {
                    lemma_spans_widen(tail, ops[1].span.end as int, to, from, to);
                    lemma_fused_spans(tail, from, to);
                },
                Fusion::Merged(kind) => {
                    let merged = merged_node(kind, ops[0], ops[1]);
                    let joined = seq![merged] + tail;
                    lemma_counts_concat(seq![merged], tail);
                    lemma_counts_single(merged);
                    assert(kind.body() is None);
                    assert(node_spans_in_order(merged));
                    lemma_spans_cons(merged, tail, from, to);
                    lemma_fused_spans(joined, from, to);
                },
                Fusion::Apart => {
                    lemma_fused_spans(rest, end, to);
                    lemma_spans_cons(fused_inside(ops[0]), fused(rest), from, to);
                },
            }
        }
    }
}

/// The optimizer keeps the spans in order: where the spans of a program are
/// in order between two offsets, so are those of the optimized program. A
/// fused instruction spans from the start of the first it stands for to the
/// end of the last.
pub proof fn optimization_keeps_spans_in_order(ops: Seq<Node>, cap: nat, from: int, to: int)
    requires
        spans_in_order(ops, from, to),
    ensures
        spans_in_order(round(ops), from, to),
        spans_in_order(optimized(ops, cap), from, to),
    decreases cap,
{
    let elided = without_leading_loops(ops);
    let emptied = without_empty_loops(elided);
    let collapsed = zero_loops_collapsed(emptied);
    lemma_elided_spans(ops, from, to);
    lemma_emptied_spans(elided, from, to);
    lemma_collapsed_spans(emptied, from, to);
    lemma_fused_spans(collapsed, from, to);
    if cap > 0 && round_progresses(ops) {
        optimization_keeps_spans_in_order(round(ops), (cap - 1) as nat, from, to);
    }
}

/// The offset from which the instructions of a frame may start: the byte
/// after its bracket, or the start of the source for the top level.
spec fn frame_from(frames: Seq<Frame>, j: int) -> int {
    if j == 0 {
        0
    } else {
        frames[j].open_position + 1
    }
}

/// The offset by which the instructions of a frame have ended: the bracket
/// of the frame above it, or the byte under the scan for the innermost.
spec fn frame_to(frames: Seq<Frame>, j: int, upto: int) -> int {
    if j == frames.len() - 1 {
        upto
    } else {
        frames[j + 1].open_position as int
    }
}

/// Whether every frame of a scan that has come to `upto` holds spans in
/// order.
spec fn frames_in_order(frames: Seq<Frame>, upto: int) -> bool {
    forall|j: int|
        0 <= j < frames.len() ==> spans_in_order(
            (#[trigger] frames[j]).children,
            frame_from(frames, j),
            frame_to(frames, j, upto),
        )
}

/// A node added to the innermost frame over the byte under the scan keeps
/// the frames in order.
proof fn lemma_with_node_in_order(frames: Seq<Frame>, node: Node, upto: int, end: int)
    requires
        frames.len() >= 1,
        frames_in_order(frames, upto),
        upto <= node.span.start,
        node_spans_in_order(node),
        node.span.end <= end,
    ensures
        frames_in_order(with_node(frames, node), end),
{
    let after = with_node(frames, node);
    let top = frames.len() - 1;
    assert forall|j: int| 0 <= j < after.len() implies spans_in_order(
        (#[trigger] after[j]).children,
        frame_from(after, j),
        frame_to(after, j, end),
    ) by {
        assert(spans_in_order(
            frames[j].children,
            frame_from(frames, j),
            frame_to(frames, j, upto),
        ));
        if j == top {
            lemma_spans_push(frames[j].children, node, frame_from(frames, j), upto, end);
        }
    }
}

/// A scan keeps the frames in order.
proof fn lemma_scan_in_order(frames: Seq<Frame>, bytes: Seq<u8>, from: int)
    requires
        0 <= from <= bytes.len() <= usize::MAX,
        frames.len() >= 1,
        frames_in_order(frames, from),
    ensures
        frames_in_order(scan(frames, bytes, from).frames, bytes.len() as int),
        scan(frames, bytes, from).frames.len() >= 1,
    decreases bytes.len() - from,
{
    if from < bytes.len() {
        let byte = bytes[from];
        let position = from as usize;
        let top = frames.len() - 1;
        match scan_byte(frames, position, byte) {
            Err(_) => {
                lemma_frames_widen(frames, from, bytes.len() as int);
            },
            Ok(next) => {
                if byte == OPEN {
                    assert forall|j: int| 0 <= j < next.len() implies spans_in_order(
                        (#[trigger] next[j]).children,
                        frame_from(next, j),
                        frame_to(next, j, from + 1),
                    ) by {
                        if j <= top {
                            assert(spans_in_order(
                                frames[j].children,
                                frame_from(frames, j),
                                frame_to(frames, j, from),
                            ));
                        }
                    }
                } else if byte == CLOSE {
                    let below = frames.drop_last();
                    let closed = Node {
                        kind: Kind::DLoop(frames[top].children),
                        span: Range {
                            start: frames[top].open_position,
                            end: (position + 1) as usize,
                        },
                    };
                    assert(spans_in_order(
                        frames[top].children,
                        frame_from(frames, top),
                        frame_to(frames, top, from),
                    ));
                    lemma_spans_bounded(frames[top].children, frames[top].open_position + 1, from);
                    lemma_spans_widen(
                        frames[top].children,
                        frames[top].open_position + 1,
                        from,
                        frames[top].open_position as int,
                        from + 1,
                    );
                    assert(frames_in_order(below, frames[top].open_position as int)) by {
                        assert forall|j: int| 0 <= j < below.len() implies spans_in_order(
                            (#[trigger] below[j]).children,
                            frame_from(below, j),
                            frame_to(below, j, frames[top].open_position as int),
                        ) by {
                            assert(spans_in_order(
                                frames[j].children,
                                frame_from(frames, j),
                                frame_to(frames, j, from),
                            ));
                        }
                    }
                    lemma_with_node_in_order(
                        below,
                        closed,
                        frames[top].open_position as int,
                        from + 1,
                    );
                } else {
                    match leaf_at(position, byte) {
                        Some(node) => lemma_with_node_in_order(frames, node, from, from + 1),
                        None => lemma_frames_widen(frames, from, from + 1),
                    }
                }
                lemma_scan_in_order(next, bytes, from + 1);
            },
        }
    }
}

/// Frames in order when the scan has come to one offset are in order when it
/// has come to a later one.
proof fn lemma_frames_widen(frames: Seq<Frame>, upto: int, later: int)
    requires
        frames_in_order(frames, upto),
        upto <= later,
    ensures
        frames_in_order(frames, later),
{
    assert forall|j: int| 0 <= j < frames.len() implies spans_in_order(
        (#[trigger] frames[j]).children,
        frame_from(frames, j),
        frame_to(frames, j, later),
    ) by {
        assert(spans_in_order(
            frames[j].children,
            frame_from(frames, j),
            frame_to(frames, j, upto),
        ));
        if j == frames.len() - 1 {
            lemma_spans_widen(
                frames[j].children,
                frame_from(frames, j),
                upto,
                frame_from(frames, j),
                later,
            );
        }
    }
}

/// The spans of a parsed program are in order within the source: every
/// instruction covers at least one byte, siblings follow one another without
/// overlap, and the body of a loop lies between its brackets.
pub proof fn parsed_program_has_spans_in_order(bytes: Seq<u8>)
    requires
        bytes.len() <= usize::MAX,
    ensures
        parsed(bytes) matches Ok(nodes) ==> spans_in_order(nodes, 0, bytes.len() as int),
{
    let frames = initial_frames();
    assert(spans_in_order(frames[0].children, 0, 0));
    lemma_scan_in_order(frames, bytes, 0);
}

} // verus!
