//! The peephole optimizer: four rewrite passes over the instruction tree,
//! applied in rounds until a round changes nothing or the cap is reached.

use crate::ast::{
    kind_of, lemma_counts_concat, lemma_counts_index, lemma_counts_single, lemma_counts_split,
    lemma_nodes_of_remove, lemma_nodes_of_update, node_of, node_op_count, nodes_of, op_count, Kind,
    Node, Op, OpType, Program,
};
use crate::machine::{cell_diff, cell_sum, ptr_sum};
use std::ops::Range;
use vstd::prelude::*;

verus! {

/// A sequence after the elision of dead leading loops: the dynamic loops at
/// its front are gone, up to the first instruction that is none.
pub open spec fn without_leading_loops(ops: Seq<Node>) -> Seq<Node>
    decreases ops.len(),
{
    if ops.len() > 0 && ops[0].kind is DLoop {
        without_leading_loops(ops.skip(1))
    } else {
        ops
    }
}

/// Whether a node is a dynamic loop with nothing in it.
pub open spec fn is_empty_loop(node: Node) -> bool {
    node.kind matches Kind::DLoop(body) && body.len() == 0
}

/// A sequence after the removal of empty loops: every dynamic loop that was
/// empty is gone, at every depth. A loop that had a body stays, even where
/// the removal empties it.
pub open spec fn without_empty_loops(ops: Seq<Node>) -> Seq<Node>
    decreases ops,
{
    if ops.len() == 0 {
        ops
    } else if is_empty_loop(ops[0]) {
        without_empty_loops(ops.skip(1))
    } else {
        seq![emptied_inside(ops[0])] + without_empty_loops(ops.skip(1))
    }
}

/// A node after the removal of empty loops from its body, if it is a dynamic
/// loop.
pub open spec fn emptied_inside(node: Node) -> Node
    decreases node,
{
    match node.kind {
        Kind::DLoop(body) => Node { kind: Kind::DLoop(without_empty_loops(body)), span: node.span },
        _ => node,
    }
}

/// Whether a node is a dynamic loop whose whole body is one decrement by one:
/// the loop that counts the current cell down to zero.
pub open spec fn is_zero_loop(node: Node) -> bool {
    node.kind matches Kind::DLoop(body) && body.len() == 1 && body[0].kind == Kind::Dec(1)
}

/// A node after the collapsing of zero loops: a zero loop becomes the
/// assignment of zero, over the bytes from the start of the loop to the end
/// of its decrement; any other dynamic loop has its body collapsed.
pub open spec fn collapsed_node(node: Node) -> Node
    decreases node,
{
    match node.kind {
        Kind::DLoop(body) => if is_zero_loop(node) {
            Node {
                kind: Kind::SetCell(0),
                span: Range { start: node.span.start, end: body[0].span.end },
            }
        } else {
            Node { kind: Kind::DLoop(zero_loops_collapsed(body)), span: node.span }
        },
        _ => node,
    }
}

/// A sequence after the collapsing of zero loops, node by node.
pub open spec fn zero_loops_collapsed(ops: Seq<Node>) -> Seq<Node>
    decreases ops,
{
    Seq::new(
        ops.len(),
        |i: int|
            if 0 <= i < ops.len() {
                collapsed_node(ops[i])
            } else {
                arbitrary()
            },
    )
}

/// What becomes of two neighbouring instructions.
pub enum Fusion {
    /// They do not combine.
    Apart,
    /// They undo each other and both go.
    Cancelled,
    /// One instruction of this kind does the work of both.
    Merged(Kind),
}

/// What is left of an amount `a` one way followed by an amount `b` the other
/// way, given the kind for each direction: nothing when they are equal, else
/// the difference in the direction of the larger.
pub open spec fn opposed_cells(a: u8, b: u8, forth: spec_fn(u8) -> Kind, back: spec_fn(u8) -> Kind) -> Fusion {
    if a == b {
        Fusion::Cancelled
    } else if a > b {
        Fusion::Merged(forth((a - b) as u8))
    } else {
        Fusion::Merged(back((b - a) as u8))
    }
}

/// The same for pointer moves.
pub open spec fn opposed_moves(
    a: usize,
    b: usize,
    forth: spec_fn(usize) -> Kind,
    back: spec_fn(usize) -> Kind,
) -> Fusion {
    if a == b {
        Fusion::Cancelled
    } else if a > b {
        Fusion::Merged(forth((a - b) as usize))
    } else {
        Fusion::Merged(back((b - a) as usize))
    }
}

/// The fusion rules for a pair: like moves and like counts add up, opposite
/// ones leave their difference or cancel, and an assignment absorbs a count
/// that follows it. A count does not absorb an assignment that follows it.
pub open spec fn fuse_pair(first: Kind, second: Kind) -> Fusion {
    match first {
        Kind::Inc(a) => match second {
            Kind::Inc(b) => Fusion::Merged(Kind::Inc(cell_sum(a, b))),
            Kind::Dec(b) => opposed_cells(a, b, |n: u8| Kind::Inc(n), |n: u8| Kind::Dec(n)),
            _ => Fusion::Apart,
        },
        Kind::Dec(a) => match second {
            Kind::Dec(b) => Fusion::Merged(Kind::Dec(cell_sum(a, b))),
            Kind::Inc(b) => opposed_cells(a, b, |n: u8| Kind::Dec(n), |n: u8| Kind::Inc(n)),
            _ => Fusion::Apart,
        },
        Kind::IncPtr(a) => match second {
            Kind::IncPtr(b) => Fusion::Merged(Kind::IncPtr(ptr_sum(a, b))),
            Kind::DecPtr(b) => opposed_moves(
                a,
                b,
                |n: usize| Kind::IncPtr(n),
                |n: usize| Kind::DecPtr(n),
            ),
            _ => Fusion::Apart,
        },
        Kind::DecPtr(a) => match second {
            Kind::DecPtr(b) => Fusion::Merged(Kind::DecPtr(ptr_sum(a, b))),
            Kind::IncPtr(b) => opposed_moves(
                a,
                b,
                |n: usize| Kind::DecPtr(n),
                |n: usize| Kind::IncPtr(n),
            ),
            _ => Fusion::Apart,
        },
        Kind::SetCell(a) => match second {
            Kind::Inc(b) => Fusion::Merged(Kind::SetCell(cell_sum(a, b))),
            Kind::Dec(b) => Fusion::Merged(Kind::SetCell(cell_diff(a, b))),
            _ => Fusion::Apart,
        },
        _ => Fusion::Apart,
    }
}

/// The node that stands for a fused pair: the given kind over the bytes from
/// the start of the first to the end of the second.
pub open spec fn merged_node(kind: Kind, first: Node, second: Node) -> Node {
    Node { kind, span: Range { start: first.span.start, end: second.span.end } }
}

/// A sequence after the fusion pass. From the left: while the first two
/// instructions combine, they are replaced by their fusion (or dropped) and
/// the scan stays where it is; otherwise the first is settled, fused inside
/// if it is a dynamic loop, and the scan moves on.
pub open spec fn fused(ops: Seq<Node>) -> Seq<Node>
    decreases op_count(ops), 1nat,
    via fused_decreases
{
    if ops.len() == 0 {
        ops
    } else if ops.len() == 1 {
        seq![fused_inside(ops[0])]
    } else {
        match fuse_pair(ops[0].kind, ops[1].kind) {
            Fusion::Cancelled => fused(ops.skip(2)),
            Fusion::Merged(kind) => fused(
                seq![merged_node(kind, ops[0], ops[1])] + ops.skip(2),
            ),
            Fusion::Apart => seq![fused_inside(ops[0])] + fused(ops.skip(1)),
        }
    }
}

/// A node after the fusion pass: a dynamic loop has its body fused, any other
/// node stays as it is.
pub open spec fn fused_inside(node: Node) -> Node
    decreases node_op_count(node), 0nat,
    via fused_inside_decreases
{
    match node.kind {
        Kind::DLoop(body) => Node { kind: Kind::DLoop(fused(body)), span: node.span },
        _ => node,
    }
}

#[via_fn]
proof fn fused_decreases(ops: Seq<Node>) {
    if ops.len() >= 2 {
        let rest = ops.skip(1);
        assert(rest.skip(1) =~= ops.skip(2));
        assert(op_count(rest) == node_op_count(rest[0]) + op_count(rest.skip(1)));
        match fuse_pair(ops[0].kind, ops[1].kind) {
            Fusion::Merged(kind) => {
                let head = seq![merged_node(kind, ops[0], ops[1])];
                lemma_counts_concat(head, ops.skip(2));
                assert(head.skip(1) =~= Seq::<Node>::empty());
                assert(op_count(head) == node_op_count(head[0]) + op_count(head.skip(1)));
                assert(node_op_count(head[0]) == 1);
                assert(op_count(head.skip(1)) == 0);
                assert(op_count(ops) == node_op_count(ops[0]) + op_count(rest));
                assert(node_op_count(ops[0]) >= 1);
                assert(node_op_count(rest[0]) >= 1);
            },
            _ => {},
        }
    }
}

#[via_fn]
proof fn fused_inside_decreases(node: Node) {
}

/// What the fusion pass does with the pair under the scan.
enum Mode {
    Ignore,
    Remove,
    Replace(OpType),
}

/// The fusion that a mode carries out.
spec fn fusion_of(mode: Mode) -> Fusion {
    match mode {
        Mode::Ignore => Fusion::Apart,
        Mode::Remove => Fusion::Cancelled,
        Mode::Replace(op_type) => Fusion::Merged(kind_of(op_type)),
    }
}

/// Decides by the fusion rules what becomes of a pair.
fn pair_mode(first: &OpType, second: &OpType) -> (mode: Mode)
    ensures
        fusion_of(mode) == fuse_pair(first@, second@),
{
    match first {
        OpType::Inc(v1) => match second {
            OpType::Inc(v2) => Mode::Replace(OpType::Inc(v1.wrapping_add(*v2))),
            OpType::Dec(v2) => {
                if *v1 == *v2 {
                    Mode::Remove
                } else if *v1 > *v2 {
                    Mode::Replace(OpType::Inc(*v1 - *v2))
                } else {
                    Mode::Replace(OpType::Dec(*v2 - *v1))
                }
            },
            _ => Mode::Ignore,
        },
        OpType::Dec(v1) => match second {
            OpType::Dec(v2) => Mode::Replace(OpType::Dec(v1.wrapping_add(*v2))),
            OpType::Inc(v2) => {
                if *v1 == *v2 {
                    Mode::Remove
                } else if *v1 > *v2 {
                    Mode::Replace(OpType::Dec(*v1 - *v2))
                } else {
                    Mode::Replace(OpType::Inc(*v2 - *v1))
                }
            },
            _ => Mode::Ignore,
        },
        OpType::IncPtr(v1) => match second {
            OpType::IncPtr(v2) => Mode::Replace(OpType::IncPtr(v1.wrapping_add(*v2))),
            OpType::DecPtr(v2) => {
                if *v1 == *v2 {
                    Mode::Remove
                } else if *v1 > *v2 {
                    Mode::Replace(OpType::IncPtr(*v1 - *v2))
                } else {
                    Mode::Replace(OpType::DecPtr(*v2 - *v1))
                }
            },
            _ => Mode::Ignore,
        },
        OpType::DecPtr(v1) => match second {
            OpType::DecPtr(v2) => Mode::Replace(OpType::DecPtr(v1.wrapping_add(*v2))),
            OpType::IncPtr(v2) => {
                if *v1 == *v2 {
                    Mode::Remove
                } else if *v1 > *v2 {
                    Mode::Replace(OpType::DecPtr(*v1 - *v2))
                } else {
                    Mode::Replace(OpType::IncPtr(*v2 - *v1))
                }
            },
            _ => Mode::Ignore,
        },
        OpType::SetCell(v1) => match second {
            OpType::Inc(v2) => Mode::Replace(OpType::SetCell(v1.wrapping_add(*v2))),
            OpType::Dec(v2) => Mode::Replace(OpType::SetCell(v1.wrapping_sub(*v2))),
            _ => Mode::Ignore,
        },
        _ => Mode::Ignore,
    }
}

/// The scan of the empty-loop pass over `c`, with everything before `i`
/// settled.
spec fn emptied_from(c: Seq<Node>, i: int) -> Seq<Node> {
    c.take(i) + without_empty_loops(c.skip(i))
}

/// An empty loop under the scan: it goes and the scan stays.
proof fn lemma_emptied_drop(c: Seq<Node>, i: int)
    requires
        0 <= i < c.len(),
        is_empty_loop(c[i]),
    ensures
        emptied_from(c.remove(i), i) == emptied_from(c, i),
        op_count(c.remove(i)) < op_count(c),
{
    let d = c.remove(i);
    assert(d.take(i) =~= c.take(i));
    assert(d.skip(i) =~= c.skip(i).skip(1));
    lemma_counts_index(c, i);
    lemma_counts_split(d, i);
    assert(c.skip(i + 1) =~= d.skip(i));
}

/// Any other instruction under the scan: it is settled, emptied inside, and
/// the scan moves on.
proof fn lemma_emptied_keep(c: Seq<Node>, i: int)
    requires
        0 <= i < c.len(),
        !is_empty_loop(c[i]),
    ensures
        emptied_from(c.update(i, emptied_inside(c[i])), i + 1) == emptied_from(c, i),
        op_count(c.update(i, emptied_inside(c[i]))) == op_count(c) - node_op_count(c[i])
            + node_op_count(emptied_inside(c[i])),
        emptied_inside(c[i]) == c[i] ==> c.update(i, emptied_inside(c[i])) == c,
{
    let d = c.update(i, emptied_inside(c[i]));
    assert(c.update(i, c[i]) =~= c);
    assert(d.take(i + 1) =~= c.take(i) + seq![emptied_inside(c[i])]);
    assert(d.skip(i + 1) =~= c.skip(i).skip(1));
    assert(emptied_from(d, i + 1) =~= emptied_from(c, i));
    lemma_counts_index(c, i);
    lemma_counts_index(d, i);
    assert(d.take(i) =~= c.take(i));
    assert(d.skip(i + 1) =~= c.skip(i + 1));
}

/// The scan of the zero-loop pass over `c`, which started as `before`, with
/// everything before `i` settled.
spec fn collapsed_upto(before: Seq<Node>, c: Seq<Node>, i: int) -> bool {
    &&& c.len() == before.len()
    &&& forall|j: int| 0 <= j < i ==> c[j] == collapsed_node(#[trigger] before[j])
    &&& forall|j: int| i <= j < c.len() ==> c[j] == #[trigger] before[j]
}

/// One more instruction settled by the zero-loop pass.
proof fn lemma_collapsed_step(before: Seq<Node>, c: Seq<Node>, i: int)
    requires
        0 <= i < c.len(),
        collapsed_upto(before, c, i),
    ensures
        collapsed_upto(before, c.update(i, collapsed_node(c[i])), i + 1),
        op_count(c.update(i, collapsed_node(c[i]))) == op_count(c) - node_op_count(c[i])
            + node_op_count(collapsed_node(c[i])),
        collapsed_node(c[i]) == c[i] ==> c.update(i, collapsed_node(c[i])) == c,
{
    let d = c.update(i, collapsed_node(c[i]));
    assert(c.update(i, c[i]) =~= c);
    lemma_counts_index(c, i);
    lemma_counts_index(d, i);
    assert(d.take(i) =~= c.take(i));
    assert(d.skip(i + 1) =~= c.skip(i + 1));
}

/// A zero loop counts two instructions, the assignment that replaces it one.
proof fn lemma_zero_loop_counts(node: Node)
    requires
        is_zero_loop(node),
    ensures
        node_op_count(node) == 2,
        node_op_count(collapsed_node(node)) == 1,
{
    let body = node.kind->DLoop_0;
    lemma_counts_single(body[0]);
    assert(body =~= seq![body[0]]);
}

/// The most rounds that one call of [`optimize`] runs, whether or not the
/// last of them still changed the tree.
pub const MAX_ROUNDS: u32 = 100;

/// A sequence after one round: the four passes in their fixed order.
pub open spec fn round(ops: Seq<Node>) -> Seq<Node> {
    fused(zero_loops_collapsed(without_empty_loops(without_leading_loops(ops))))
}

/// Whether a round on this sequence reports progress: whether one of the
/// three passes after the elision changes what it is given. What the elision
/// itself drops is not counted.
pub open spec fn round_progresses(ops: Seq<Node>) -> bool {
    let elided = without_leading_loops(ops);
    let emptied = without_empty_loops(elided);
    let collapsed = zero_loops_collapsed(emptied);
    emptied != elided || collapsed != emptied || fused(collapsed) != collapsed
}

/// A sequence after optimization with at most `cap` rounds: round after
/// round, until one reports no progress or the rounds are used up.
pub open spec fn optimized(ops: Seq<Node>, cap: nat) -> Seq<Node>
    decreases cap,
{
    if cap == 0 {
        ops
    } else if round_progresses(ops) {
        optimized(round(ops), (cap - 1) as nat)
    } else {
        round(ops)
    }
}

/// The number of rounds that optimization with at most `cap` rounds runs.
pub open spec fn rounds(ops: Seq<Node>, cap: nat) -> nat
    decreases cap,
{
    if cap == 0 {
        0
    } else if round_progresses(ops) {
        1 + rounds(round(ops), (cap - 1) as nat)
    } else {
        1
    }
}

/// Whether optimization with at most `cap` rounds ends because a round
/// reports no progress, and not because the rounds are used up.
pub open spec fn settles(ops: Seq<Node>, cap: nat) -> bool
    decreases cap,
{
    cap > 0 && (round_progresses(ops) ==> settles(round(ops), (cap - 1) as nat))
}

/// Whether a sequence is a fixpoint of the optimizer: a round reports no
/// progress on it and leaves it as it is.
pub open spec fn is_fixpoint(ops: Seq<Node>) -> bool {
    !round_progresses(ops) && round(ops) == ops
}

/// The elision of leading loops changes nothing when it is applied again.
proof fn lemma_elision_is_idempotent(ops: Seq<Node>)
    ensures
        without_leading_loops(without_leading_loops(ops)) == without_leading_loops(ops),
    decreases ops.len(),
{
    if ops.len() > 0 && ops[0].kind is DLoop {
        lemma_elision_is_idempotent(ops.skip(1));
    }
}

/// Where optimization settles, its result is a fixpoint.
pub proof fn lemma_settled_is_fixpoint(ops: Seq<Node>, cap: nat)
    requires
        settles(ops, cap),
    ensures
        is_fixpoint(optimized(ops, cap)),
    decreases cap,
{
    if round_progresses(ops) {
        lemma_settled_is_fixpoint(round(ops), (cap - 1) as nat);
    } else {
        lemma_elision_is_idempotent(ops);
    }
}

/// Optimization that ran fewer rounds than it was allowed has settled.
pub proof fn fewer_rounds_than_allowed_settle(ops: Seq<Node>, cap: nat)
    requires
        rounds(ops, cap) < cap,
    ensures
        settles(ops, cap),
    decreases cap,
{
    if cap > 0 && round_progresses(ops) {
        fewer_rounds_than_allowed_settle(round(ops), (cap - 1) as nat);
    }
}

/// Idempotence: optimizing a tree that optimization has settled on runs one
/// round, which reports no progress, and leaves the tree as it is.
///
/// The tree must have settled: one that used up its rounds while still making
/// progress is not a fixpoint, and a second run goes on where the first
/// stopped.
pub proof fn optimize_is_idempotent(ops: Seq<Node>, cap: nat, again: nat)
    requires
        settles(ops, cap),
        again > 0,
    ensures
        optimized(optimized(ops, cap), again) == optimized(ops, cap),
        rounds(optimized(ops, cap), again) == 1,
        !round_progresses(optimized(ops, cap)),
{
    lemma_settled_is_fixpoint(ops, cap);
}

/// Dead-loop elision: dynamic loops at the front of a program leave no trace
/// in the optimized tree, whatever they hold. The program optimizes to what
/// it would without them, in as many rounds.
pub proof fn leading_loops_leave_no_trace(loops: Seq<Node>, rest: Seq<Node>, cap: nat)
    requires
        forall|i: int| 0 <= i < loops.len() ==> (#[trigger] loops[i]).kind is DLoop,
        cap > 0,
    ensures
        without_leading_loops(loops + rest) == without_leading_loops(rest),
        optimized(loops + rest, cap) == optimized(rest, cap),
        rounds(loops + rest, cap) == rounds(rest, cap),
    decreases loops.len(),
{
    if loops.len() > 0 {
        assert((loops + rest).skip(1) =~= loops.skip(1) + rest);
        assert((loops + rest)[0] == loops[0]);
        leading_loops_leave_no_trace(loops.skip(1), rest, cap);
    } else {
        assert(loops + rest =~= rest);
    }
}

/// A fused kind is that of a plain instruction, never of one with a body.
proof fn lemma_merged_is_plain(first: Kind, second: Kind)
    ensures
        fuse_pair(first, second) matches Fusion::Merged(kind) ==> kind.body() is None,
{
}

/// The scan of the fusion pass over `c`, with everything before `i` settled.
spec fn fused_from(c: Seq<Node>, i: int) -> Seq<Node> {
    c.take(i) + fused(c.skip(i))
}

/// A cancelling pair under the scan: both go and the scan stays.
proof fn lemma_fused_cancel(c: Seq<Node>, i: int)
    requires
        0 <= i,
        i + 1 < c.len(),
        fuse_pair(c[i].kind, c[i + 1].kind) is Cancelled,
    ensures
        fused_from(c.remove(i).remove(i), i) == fused_from(c, i),
        op_count(c.remove(i).remove(i)) < op_count(c),
{
    let d = c.remove(i).remove(i);
    let rest = c.skip(i);
    assert(d.take(i) =~= c.take(i));
    assert(d.skip(i) =~= rest.skip(2));
    lemma_counts_split(c, i);
    lemma_counts_split(d, i);
    assert(rest.skip(1).skip(1) =~= rest.skip(2));
    assert(op_count(rest) == node_op_count(rest[0]) + op_count(rest.skip(1)));
    assert(op_count(rest.skip(1)) == node_op_count(rest.skip(1)[0]) + op_count(rest.skip(2)));
}

/// A merging pair under the scan: the fusion stands in its place and the
/// scan stays.
proof fn lemma_fused_merge(c: Seq<Node>, i: int, kind: Kind)
    requires
        0 <= i,
        i + 1 < c.len(),
        fuse_pair(c[i].kind, c[i + 1].kind) == Fusion::Merged(kind),
    ensures
        fused_from(c.update(i, merged_node(kind, c[i], c[i + 1])).remove(i + 1), i) == fused_from(
            c,
            i,
        ),
        op_count(c.update(i, merged_node(kind, c[i], c[i + 1])).remove(i + 1)) < op_count(c),
{
    let merged = merged_node(kind, c[i], c[i + 1]);
    let d = c.update(i, merged).remove(i + 1);
    let rest = c.skip(i);
    assert(d.take(i) =~= c.take(i));
    assert(d.skip(i) =~= seq![merged] + rest.skip(2));
    lemma_counts_split(c, i);
    lemma_counts_split(d, i);
    lemma_counts_concat(seq![merged], rest.skip(2));
    lemma_counts_single(merged);
    lemma_merged_is_plain(c[i].kind, c[i + 1].kind);
    assert(rest.skip(1).skip(1) =~= rest.skip(2));
    assert(op_count(rest) == node_op_count(rest[0]) + op_count(rest.skip(1)));
    assert(op_count(rest.skip(1)) == node_op_count(rest.skip(1)[0]) + op_count(rest.skip(2)));
}

/// A pair that stays apart: the first is settled, fused inside, and the scan
/// moves on.
proof fn lemma_fused_apart(c: Seq<Node>, i: int)
    requires
        0 <= i,
        i + 1 < c.len(),
        fuse_pair(c[i].kind, c[i + 1].kind) is Apart,
    ensures
        fused_from(c.update(i, fused_inside(c[i])), i + 1) == fused_from(c, i),
        op_count(c.update(i, fused_inside(c[i]))) == op_count(c) - node_op_count(c[i])
            + node_op_count(fused_inside(c[i])),
        fused_inside(c[i]) == c[i] ==> c.update(i, fused_inside(c[i])) == c,
{
    let d = c.update(i, fused_inside(c[i]));
    assert(c.update(i, c[i]) =~= c);
    let rest = c.skip(i);
    assert(d.take(i + 1) =~= c.take(i) + seq![fused_inside(c[i])]);
    assert(d.skip(i + 1) =~= rest.skip(1));
    assert(fused_from(d, i + 1) =~= fused_from(c, i));
    lemma_counts_index(c, i);
    lemma_counts_index(d, i);
    assert(d.take(i) =~= c.take(i));
    assert(d.skip(i + 1) =~= c.skip(i + 1));
}

/// The last instruction under the scan: it is settled, fused inside.
proof fn lemma_fused_last(c: Seq<Node>)
    requires
        c.len() >= 1,
    ensures
        c.update(c.len() - 1, fused_inside(c.last())) == fused_from(c, c.len() - 1),
        op_count(c.update(c.len() - 1, fused_inside(c.last()))) == op_count(c) - node_op_count(
            c.last(),
        ) + node_op_count(fused_inside(c.last())),
        fused_inside(c.last()) == c.last() ==> c.update(c.len() - 1, fused_inside(c.last())) == c,
{
    let i = c.len() - 1;
    let d = c.update(i, fused_inside(c[i]));
    assert(c.update(i, c[i]) =~= c);
    assert(c.skip(i) =~= seq![c[i]]);
    assert(d =~= fused_from(c, i));
    lemma_counts_index(c, i);
    lemma_counts_index(d, i);
    assert(d.take(i) =~= c.take(i));
    assert(d.skip(i + 1) =~= c.skip(i + 1));
}

/// Fuses the body of a dynamic loop; leaves any other instruction alone.
fn fuse_inside(op: &mut Op, depth: usize) -> (progress: bool)
    requires
        depth + node_op_count(node_of(*old(op))) <= usize::MAX,
    ensures
        node_of(*final(op)) == fused_inside(node_of(*old(op))),
        progress <==> node_of(*final(op)) != node_of(*old(op)),
        progress ==> node_op_count(node_of(*final(op))) < node_op_count(node_of(*old(op))),
    decreases node_op_count(node_of(*old(op))), 0nat,
{
    if let OpType::DLoop(children) = &mut op.op_type {
        optimize_inc_dec(children, depth + 1)
    } else {
        false
    }
}

/// Fusion pass: merges neighbouring counts and moves and drops pairs that
/// cancel, in every sequence reached through dynamic loops. Reports whether
/// the tree changed; a change always lowers the number of instructions.
///
/// `depth` is the nesting level of `ops`; it is handed down, one higher for
/// each body, and has no effect on the result.
pub fn optimize_inc_dec(ops: &mut Vec<Op>, depth: usize) -> (progress: bool)
    requires
        depth + op_count(nodes_of(old(ops)@)) <= usize::MAX,
    ensures
        nodes_of(final(ops)@) == fused(nodes_of(old(ops)@)),
        progress <==> nodes_of(final(ops)@) != nodes_of(old(ops)@),
        progress ==> op_count(nodes_of(final(ops)@)) < op_count(nodes_of(old(ops)@)),
    decreases op_count(nodes_of(old(ops)@)), 1nat,
{
    let ghost before = nodes_of(ops@);
    let mut i: usize = 0;
    let mut progress = false;
    proof {
        assert(before.skip(0) =~= before);
        assert(before.take(0) + fused(before) =~= fused(before));
    }
    while ops.len() - i > 1
        invariant
            i <= ops.len(),
            before == nodes_of(old(ops)@),
            depth + op_count(before) <= usize::MAX,
            fused(before) == fused_from(nodes_of(ops@), i as int),
            !progress ==> nodes_of(ops@) == before,
            progress <==> op_count(nodes_of(ops@)) < op_count(before),
        decreases ops.len() - i,
    {
        let ghost current = nodes_of(ops@);
        let ghost held = ops@;
        let mode = pair_mode(&ops[i].op_type, &ops[i + 1].op_type);
        match mode {
            Mode::Remove => {
                ops.remove(i);
                ops.remove(i);
                progress = true;
                proof {
                    lemma_fused_cancel(current, i as int);
                    lemma_nodes_of_remove(held, i as int);
                    lemma_nodes_of_remove(held.remove(i as int), i as int);
                }
            },
            Mode::Replace(op_type) => {
                let span = ops[i].span.start..ops[i + 1].span.end;
                let merged = Op { op_type, span };
                proof {
                    lemma_fused_merge(current, i as int, kind_of(op_type));
                    lemma_nodes_of_update(held, i as int, merged);
                    lemma_nodes_of_remove(held.update(i as int, merged), i + 1);
                }
                ops[i] = merged;
                ops.remove(i + 1);
                progress = true;
            },
            Mode::Ignore => {
                proof {
                    lemma_fused_apart(current, i as int);
                    lemma_counts_index(current, i as int);
                    assert(current[i as int] == node_of(held[i as int]));
                }
                let changed = fuse_inside(&mut ops[i], depth);
                proof {
                    assert(ops@ == held.update(i as int, ops@[i as int]));
                    lemma_nodes_of_update(held, i as int, ops@[i as int]);
                }
                progress = progress || changed;
                i += 1;
            },
        }
    }
    if i < ops.len() {
        let ghost current = nodes_of(ops@);
        let ghost held = ops@;
        proof {
            lemma_fused_last(current);
            lemma_counts_index(current, i as int);
            assert(current[i as int] == node_of(held[i as int]));
        }
        let changed = fuse_inside(&mut ops[i], depth);
        proof {
            assert(ops@ == held.update(i as int, ops@[i as int]));
            lemma_nodes_of_update(held, i as int, ops@[i as int]);
        }
        progress = progress || changed;
    } else {
        proof {
            let current = nodes_of(ops@);
            assert(current.skip(i as int) =~= Seq::<Node>::empty());
            assert(current.take(i as int) =~= current);
            assert(fused_from(current, i as int) =~= current);
        }
    }
    progress
}

/// Dead-loop elision: drops the dynamic loops at the front of the program.
/// The current cell is zero when a program starts, so none of them can run.
/// Only the top level is looked at, and only its front.
pub fn remove_preceding_loop(ops: &mut Vec<Op>)
    ensures
        nodes_of(final(ops)@) == without_leading_loops(nodes_of(old(ops)@)),
        op_count(nodes_of(final(ops)@)) <= op_count(nodes_of(old(ops)@)),
{
    let ghost before = nodes_of(ops@);
    while !ops.is_empty()
        invariant
            without_leading_loops(before) == without_leading_loops(nodes_of(ops@)),
            op_count(nodes_of(ops@)) <= op_count(before),
        ensures
            without_leading_loops(before) == nodes_of(ops@),
            op_count(nodes_of(ops@)) <= op_count(before),
        decreases ops.len(),
    {
        let ghost held = ops@;
        if let OpType::DLoop(_) = ops[0].op_type {
            ops.remove(0);
            proof {
                let current = nodes_of(held);
                lemma_nodes_of_remove(held, 0);
                assert(current.remove(0) =~= current.skip(1));
                lemma_counts_index(current, 0);
            }
        } else {
            break ;
        }
    }
}

/// Removes the empty loops from the body of a dynamic loop; leaves any other
/// instruction alone.
fn empty_inside(op: &mut Op) -> (progress: bool)
    ensures
        node_of(*final(op)) == emptied_inside(node_of(*old(op))),
        progress <==> node_of(*final(op)) != node_of(*old(op)),
        progress ==> node_op_count(node_of(*final(op))) < node_op_count(node_of(*old(op))),
    decreases node_op_count(node_of(*old(op))), 0nat,
{
    if let OpType::DLoop(children) = &mut op.op_type {
        remove_empty_loops(children)
    } else {
        false
    }
}

/// Empty-loop pass: removes every dynamic loop that has no body, in every
/// sequence reached through dynamic loops. Reports whether the tree changed;
/// a change always lowers the number of instructions.
pub fn remove_empty_loops(ops: &mut Vec<Op>) -> (progress: bool)
    ensures
        nodes_of(final(ops)@) == without_empty_loops(nodes_of(old(ops)@)),
        progress <==> nodes_of(final(ops)@) != nodes_of(old(ops)@),
        progress ==> op_count(nodes_of(final(ops)@)) < op_count(nodes_of(old(ops)@)),
    decreases op_count(nodes_of(old(ops)@)), 1nat,
{
    let ghost before = nodes_of(ops@);
    let mut i: usize = 0;
    let mut progress = false;
    proof {
        assert(before.skip(0) =~= before);
        assert(before.take(0) + without_empty_loops(before) =~= without_empty_loops(before));
    }
    while i < ops.len()
        invariant
            i <= ops.len(),
            before == nodes_of(old(ops)@),
            without_empty_loops(before) == emptied_from(nodes_of(ops@), i as int),
            !progress ==> nodes_of(ops@) == before,
            progress <==> op_count(nodes_of(ops@)) < op_count(before),
        decreases ops.len() - i,
    {
        let ghost current = nodes_of(ops@);
        let ghost held = ops@;
        let empty = match &ops[i].op_type {
            OpType::DLoop(children) => children.is_empty(),
            _ => false,
        };
        if empty {
            ops.remove(i);
            progress = true;
            proof {
                lemma_emptied_drop(current, i as int);
                lemma_nodes_of_remove(held, i as int);
            }
        } else {
            proof {
                lemma_emptied_keep(current, i as int);
                lemma_counts_index(current, i as int);
                assert(current[i as int] == node_of(held[i as int]));
            }
            let changed = empty_inside(&mut ops[i]);
            proof {
                assert(ops@ == held.update(i as int, ops@[i as int]));
                lemma_nodes_of_update(held, i as int, ops@[i as int]);
            }
            progress = progress || changed;
            i += 1;
        }
    }
    proof {
        let current = nodes_of(ops@);
        assert(current.skip(i as int) =~= Seq::<Node>::empty());
        assert(current.take(i as int) =~= current);
        assert(emptied_from(current, i as int) =~= current);
    }
    progress
}

/// Collapses one instruction: a zero loop becomes the assignment of zero,
/// any other dynamic loop has its body collapsed.
fn collapse_node(op: &mut Op) -> (progress: bool)
    ensures
        node_of(*final(op)) == collapsed_node(node_of(*old(op))),
        progress <==> node_of(*final(op)) != node_of(*old(op)),
        progress ==> node_op_count(node_of(*final(op))) < node_op_count(node_of(*old(op))),
    decreases node_op_count(node_of(*old(op))), 0nat,
{
    let start = op.span.start;
    if let OpType::DLoop(children) = &mut op.op_type {
        let mut optimized = false;
        if children.len() == 1 {
            if let OpType::Dec(count) = &children[0].op_type {
                optimized = *count == 1;
            }
        }
        if optimized {
            let end = children[0].span.end;
            proof {
                let body = nodes_of(children@);
                assert(body[0] == node_of(children@[0]));
                assert(node_of(*old(op)).kind == Kind::DLoop(body));
                lemma_zero_loop_counts(node_of(*old(op)));
            }
            *op = Op { op_type: OpType::SetCell(0), span: start..end };
            true
        } else {
            optimize_zero_loops(children)
        }
    } else {
        false
    }
}

/// Zero-loop pass: replaces every dynamic loop whose body is the single
/// instruction `Dec(1)` by `SetCell(0)`, in every sequence reached through
/// dynamic loops. Reports whether the tree changed; a change always lowers
/// the number of instructions.
pub fn optimize_zero_loops(ops: &mut Vec<Op>) -> (progress: bool)
    ensures
        nodes_of(final(ops)@) == zero_loops_collapsed(nodes_of(old(ops)@)),
        progress <==> nodes_of(final(ops)@) != nodes_of(old(ops)@),
        progress ==> op_count(nodes_of(final(ops)@)) < op_count(nodes_of(old(ops)@)),
    decreases op_count(nodes_of(old(ops)@)), 1nat,
{
    let ghost before = nodes_of(ops@);
    let mut i: usize = 0;
    let mut progress = false;
    while i < ops.len()
        invariant
            i <= ops.len(),
            before == nodes_of(old(ops)@),
            collapsed_upto(before, nodes_of(ops@), i as int),
            !progress ==> nodes_of(ops@) == before,
            progress <==> op_count(nodes_of(ops@)) < op_count(before),
        decreases ops.len() - i,
    {
        let ghost current = nodes_of(ops@);
        let ghost held = ops@;
        proof {
            lemma_collapsed_step(before, current, i as int);
            lemma_counts_index(current, i as int);
            assert(current[i as int] == node_of(held[i as int]));
        }
        let changed = collapse_node(&mut ops[i]);
        proof {
            assert(ops@ == held.update(i as int, ops@[i as int]));
            lemma_nodes_of_update(held, i as int, ops@[i as int]);
        }
        progress = progress || changed;
        i += 1;
    }
    proof {
        assert(nodes_of(ops@) =~= zero_loops_collapsed(before));
    }
    progress
}

/// Optimizes a program in place and returns the number of rounds run. Each
/// round applies the four passes in order; the rounds end with the first that
/// reports no progress, or after [`MAX_ROUNDS`] of them even if the last one
/// still made progress. Where fewer rounds ran, the result is a fixpoint: a
/// second call runs one round and changes nothing.
///
/// The program must have no more instructions than a machine word can
/// count, as every parsed program has.
pub fn optimize(program: &mut Program) -> (count: u32)
    requires
        op_count(old(program)@) <= usize::MAX,
    ensures
        final(program)@ == optimized(old(program)@, MAX_ROUNDS as nat),
        count == rounds(old(program)@, MAX_ROUNDS as nat),
        1 <= count <= MAX_ROUNDS,
        count < MAX_ROUNDS ==> is_fixpoint(final(program)@),
        op_count(final(program)@) <= op_count(old(program)@),
{
    let ghost before = program@;
    let mut progress = true;
    let mut count: u32 = 0;
    while count < MAX_ROUNDS && progress
        invariant
            count <= MAX_ROUNDS,
            count == 0 ==> progress,
            op_count(program@) <= op_count(before) <= usize::MAX,
            progress ==> optimized(before, MAX_ROUNDS as nat) == optimized(
                program@,
                (MAX_ROUNDS - count) as nat,
            ),
            progress ==> rounds(before, MAX_ROUNDS as nat) == count + rounds(
                program@,
                (MAX_ROUNDS - count) as nat,
            ),
            !progress ==> optimized(before, MAX_ROUNDS as nat) == program@,
            !progress ==> rounds(before, MAX_ROUNDS as nat) == count,
        decreases MAX_ROUNDS - count,
    {
        count += 1;

        remove_preceding_loop(&mut program.ops);
        let emptied = remove_empty_loops(&mut program.ops);
        let collapsed = optimize_zero_loops(&mut program.ops);
        let fused = optimize_inc_dec(&mut program.ops, 0);
        progress = emptied || collapsed || fused;
    }
    proof {
        if count < MAX_ROUNDS {
            fewer_rounds_than_allowed_settle(before, MAX_ROUNDS as nat);
            lemma_settled_is_fixpoint(before, MAX_ROUNDS as nat);
        }
    }
    count
}

} // verus!
