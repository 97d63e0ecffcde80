//! The instruction tree, its mathematical model, and the measures taken of it.

use std::ops::Range;
use vstd::prelude::*;

verus! {

/// One instruction together with the bytes of the source it came from.
#[derive(Debug, PartialEq, Eq)]
pub struct Op {
    pub op_type: OpType,
    pub span: Range<usize>,
}

/// What an instruction does. The four kinds with a `Vec` own a body; no body
/// is shared and none refers back to a parent.
#[derive(Debug, PartialEq, Eq)]
pub enum OpType {
    /// Move the data pointer right by the count.
    IncPtr(usize),
    /// Move the data pointer left by the count.
    DecPtr(usize),
    /// Add the count to the current cell, modulo 256.
    Inc(u8),
    /// Subtract the count from the current cell, modulo 256.
    Dec(u8),
    /// Assign the value to the current cell.
    SetCell(u8),
    /// Add the multiplier times the current cell to the cell at the offset.
    Add(isize, u8),
    /// Subtract the multiplier times the current cell from the cell at the offset.
    Sub(isize, u8),
    /// Write the current cell as one byte.
    PutChar,
    /// Read one byte into the current cell.
    GetChar,
    /// Dynamic loop, as a bracket pair of the source: the current cell is
    /// tested again before every iteration.
    DLoop(Vec<Op>),
    /// Loop driven by an induction variable at the offset that falls by the
    /// step on every iteration.
    ILoop(Vec<Op>, isize, u8),
    /// Loop whose number of iterations is known beforehand.
    CLoop(Vec<Op>, isize, u8),
    /// Test if not zero: the body runs at most once, guarded by the cell at
    /// the offset.
    TNz(Vec<Op>, isize),
    /// Move the data pointer by the step until it rests on a zero cell.
    SearchZero(isize),
}

/// A whole program: the top-level sequence of instructions.
pub struct Program {
    pub ops: Vec<Op>,
}

/// The mathematical model of an [`Op`]: the same shape, with sequences for
/// bodies.
pub struct Node {
    pub kind: Kind,
    pub span: Range<usize>,
}

/// The mathematical model of an [`OpType`].
pub enum Kind {
    IncPtr(usize),
    DecPtr(usize),
    Inc(u8),
    Dec(u8),
    SetCell(u8),
    Add(isize, u8),
    Sub(isize, u8),
    PutChar,
    GetChar,
    DLoop(Seq<Node>),
    ILoop(Seq<Node>, isize, u8),
    CLoop(Seq<Node>, isize, u8),
    TNz(Seq<Node>, isize),
    SearchZero(isize),
}

/// The model of a sequence of instructions, element by element.
pub open spec fn nodes_of(ops: Seq<Op>) -> Seq<Node>
    decreases ops,
{
    Seq::new(
        ops.len(),
        |i: int|
            if 0 <= i < ops.len() {
                node_of(ops[i])
            } else {
                arbitrary()
            },
    )
}

/// The model of one instruction.
pub open spec fn node_of(op: Op) -> Node
    decreases op,
{
    Node { kind: kind_of(op.op_type), span: op.span }
}

/// The model of what an instruction does.
pub open spec fn kind_of(op_type: OpType) -> Kind
    decreases op_type,
{
    match op_type {
        OpType::IncPtr(count) => Kind::IncPtr(count),
        OpType::DecPtr(count) => Kind::DecPtr(count),
        OpType::Inc(count) => Kind::Inc(count),
        OpType::Dec(count) => Kind::Dec(count),
        OpType::SetCell(value) => Kind::SetCell(value),
        OpType::Add(offset, multi) => Kind::Add(offset, multi),
        OpType::Sub(offset, multi) => Kind::Sub(offset, multi),
        OpType::PutChar => Kind::PutChar,
        OpType::GetChar => Kind::GetChar,
        OpType::DLoop(body) => Kind::DLoop(nodes_of(body@)),
        OpType::ILoop(body, offset, step) => Kind::ILoop(nodes_of(body@), offset, step),
        OpType::CLoop(body, offset, iterations) => Kind::CLoop(nodes_of(body@), offset, iterations),
        OpType::TNz(body, offset) => Kind::TNz(nodes_of(body@), offset),
        OpType::SearchZero(step) => Kind::SearchZero(step),
    }
}

impl View for Op {
    type V = Node;

    open spec fn view(&self) -> Node {
        node_of(*self)
    }
}

impl View for OpType {
    type V = Kind;

    open spec fn view(&self) -> Kind {
        kind_of(*self)
    }
}

impl View for Program {
    type V = Seq<Node>;

    open spec fn view(&self) -> Seq<Node> {
        nodes_of(self.ops@)
    }
}

impl Op {
    /// Moves the data pointer right by `count`.
    pub fn inc_ptr(span: Range<usize>, count: usize) -> (op: Op)
        ensures
            op@ == (Node { kind: Kind::IncPtr(count), span }),
    {
        Op { op_type: OpType::IncPtr(count), span }
    }

    /// Moves the data pointer left by `count`.
    pub fn dec_ptr(span: Range<usize>, count: usize) -> (op: Op)
        ensures
            op@ == (Node { kind: Kind::DecPtr(count), span }),
    {
        Op { op_type: OpType::DecPtr(count), span }
    }

    /// Adds `count` to the current cell.
    pub fn inc(span: Range<usize>, count: u8) -> (op: Op)
        ensures
            op@ == (Node { kind: Kind::Inc(count), span }),
    {
        Op { op_type: OpType::Inc(count), span }
    }

    /// Subtracts `count` from the current cell.
    pub fn dec(span: Range<usize>, count: u8) -> (op: Op)
        ensures
            op@ == (Node { kind: Kind::Dec(count), span }),
    {
        Op { op_type: OpType::Dec(count), span }
    }

    /// Writes the current cell.
    pub fn put_char(span: Range<usize>) -> (op: Op)
        ensures
            op@ == (Node { kind: Kind::PutChar, span }),
    {
        Op { op_type: OpType::PutChar, span }
    }

    /// Reads into the current cell.
    pub fn get_char(span: Range<usize>) -> (op: Op)
        ensures
            op@ == (Node { kind: Kind::GetChar, span }),
    {
        Op { op_type: OpType::GetChar, span }
    }

    /// A dynamic loop with the body `ops`.
    pub fn d_loop(span: Range<usize>, ops: Vec<Op>) -> (op: Op)
        ensures
            op@ == (Node { kind: Kind::DLoop(nodes_of(ops@)), span }),
    {
        Op { op_type: OpType::DLoop(ops), span }
    }

    /// A loop with the body `ops`, driven by the cell at `offset`, which
    /// falls by `step` on every iteration.
    pub fn i_loop(span: Range<usize>, ops: Vec<Op>, offset: isize, step: u8) -> (op: Op)
        ensures
            op@ == (Node { kind: Kind::ILoop(nodes_of(ops@), offset, step), span }),
    {
        Op { op_type: OpType::ILoop(ops, offset, step), span }
    }

    /// A loop with the body `ops` that runs `iterations` times.
    pub fn c_loop(span: Range<usize>, ops: Vec<Op>, offset: isize, iterations: u8) -> (op: Op)
        ensures
            op@ == (Node { kind: Kind::CLoop(nodes_of(ops@), offset, iterations), span }),
    {
        Op { op_type: OpType::CLoop(ops, offset, iterations), span }
    }

    /// Assigns `value` to the current cell.
    pub fn set(span: Range<usize>, value: u8) -> (op: Op)
        ensures
            op@ == (Node { kind: Kind::SetCell(value), span }),
    {
        Op { op_type: OpType::SetCell(value), span }
    }

    /// Adds `multi` times the current cell to the cell at `ptr_offset`.
    pub fn add(span: Range<usize>, ptr_offset: isize, multi: u8) -> (op: Op)
        ensures
            op@ == (Node { kind: Kind::Add(ptr_offset, multi), span }),
    {
        Op { op_type: OpType::Add(ptr_offset, multi), span }
    }

    /// Subtracts `multi` times the current cell from the cell at
    /// `ptr_offset`.
    pub fn sub(span: Range<usize>, ptr_offset: isize, multi: u8) -> (op: Op)
        ensures
            op@ == (Node { kind: Kind::Sub(ptr_offset, multi), span }),
    {
        Op { op_type: OpType::Sub(ptr_offset, multi), span }
    }

    /// A block with the body `ops` that runs once if the cell at `offset`
    /// is not zero.
    pub fn t_nz(span: Range<usize>, ops: Vec<Op>, offset: isize) -> (op: Op)
        ensures
            op@ == (Node { kind: Kind::TNz(nodes_of(ops@), offset), span }),
    {
        Op { op_type: OpType::TNz(ops, offset), span }
    }

    /// Moves the data pointer by `step` until it rests on a zero cell.
    pub fn search_zero(span: Range<usize>, step: isize) -> (op: Op)
        ensures
            op@ == (Node { kind: Kind::SearchZero(step), span }),
    {
        Op { op_type: OpType::SearchZero(step), span }
    }
}

impl OpType {
    /// Whether the instruction moves the data pointer by a count.
    pub fn is_ptr_inc_or_dec(&self) -> (moves: bool)
        ensures
            moves == (self@ is IncPtr || self@ is DecPtr),
    {
        matches!(self, OpType::DecPtr(_) | OpType::IncPtr(_))
    }

    /// The body of the instruction, if it owns one, for changing in place.
    pub fn get_children_mut(&mut self) -> (children: Option<&mut Vec<Op>>)
        ensures
            match children {
                Some(body) => {
                    &&& old(self)@.body() == Some(nodes_of(body@))
                    &&& final(self)@.body() == Some(nodes_of(final(body)@))
                    &&& final(self)@ == old(self)@.with_body(nodes_of(final(body)@))
                },
                None => old(self)@.body() is None && *final(self) == *old(self),
            },
    {
        match self {
            OpType::DLoop(children) => Some(children),
            OpType::ILoop(children, _, _) => Some(children),
            OpType::CLoop(children, _, _) => Some(children),
            OpType::TNz(children, _) => Some(children),
            _ => None,
        }
    }
}

impl Kind {
    /// The body of a node that owns one.
    pub open spec fn body(self) -> Option<Seq<Node>> {
        match self {
            Kind::DLoop(body) => Some(body),
            Kind::ILoop(body, _, _) => Some(body),
            Kind::CLoop(body, _, _) => Some(body),
            Kind::TNz(body, _) => Some(body),
            _ => None,
        }
    }

    /// The same kind of node with another body; a node that owns none is
    /// left as it is.
    pub open spec fn with_body(self, body: Seq<Node>) -> Kind {
        match self {
            Kind::DLoop(_) => Kind::DLoop(body),
            Kind::ILoop(_, offset, step) => Kind::ILoop(body, offset, step),
            Kind::CLoop(_, offset, iterations) => Kind::CLoop(body, offset, iterations),
            Kind::TNz(_, offset) => Kind::TNz(body, offset),
            _ => self,
        }
    }

    /// Whether the node counts as a loop: a conditional block does not.
    pub open spec fn is_loop(self) -> bool {
        self is DLoop || self is ILoop || self is CLoop
    }
}

/// The number of instructions in a sequence, bodies included.
pub open spec fn op_count(ops: Seq<Node>) -> nat
    decreases ops,
{
    if ops.len() == 0 {
        0
    } else {
        node_op_count(ops[0]) + op_count(ops.skip(1))
    }
}

/// The number of instructions in one node: itself and its body.
pub open spec fn node_op_count(node: Node) -> nat
    decreases node,
{
    1 + match node.kind {
        Kind::DLoop(body) => op_count(body),
        Kind::ILoop(body, _, _) => op_count(body),
        Kind::CLoop(body, _, _) => op_count(body),
        Kind::TNz(body, _) => op_count(body),
        _ => 0,
    }
}

/// The number of loops in a sequence, bodies included.
pub open spec fn loop_count(ops: Seq<Node>) -> nat
    decreases ops,
{
    if ops.len() == 0 {
        0
    } else {
        node_loop_count(ops[0]) + loop_count(ops.skip(1))
    }
}

/// The number of loops in one node: itself, if it is one, and those of its
/// body.
pub open spec fn node_loop_count(node: Node) -> nat
    decreases node,
{
    (if node.kind.is_loop() {
        1nat
    } else {
        0nat
    }) + match node.kind {
        Kind::DLoop(body) => loop_count(body),
        Kind::ILoop(body, _, _) => loop_count(body),
        Kind::CLoop(body, _, _) => loop_count(body),
        Kind::TNz(body, _) => loop_count(body),
        _ => 0,
    }
}

/// Removing an instruction removes its node.
pub proof fn lemma_nodes_of_remove(ops: Seq<Op>, i: int)
    requires
        0 <= i < ops.len(),
    ensures
        nodes_of(ops.remove(i)) == nodes_of(ops).remove(i),
{
    assert(nodes_of(ops.remove(i)) =~= nodes_of(ops).remove(i));
}

/// Replacing an instruction replaces its node.
pub proof fn lemma_nodes_of_update(ops: Seq<Op>, i: int, op: Op)
    requires
        0 <= i < ops.len(),
    ensures
        nodes_of(ops.update(i, op)) == nodes_of(ops).update(i, node_of(op)),
{
    assert(nodes_of(ops.update(i, op)) =~= nodes_of(ops).update(i, node_of(op)));
}

/// Appending an instruction appends its node.
pub proof fn lemma_nodes_of_push(ops: Seq<Op>, op: Op)
    ensures
        nodes_of(ops.push(op)) == nodes_of(ops).push(node_of(op)),
{
    assert(nodes_of(ops.push(op)) =~= nodes_of(ops).push(node_of(op)));
}

/// A sequence counts as its part before an index and its part from there on.
pub proof fn lemma_counts_split(ops: Seq<Node>, i: int)
    requires
        0 <= i <= ops.len(),
    ensures
        op_count(ops) == op_count(ops.take(i)) + op_count(ops.skip(i)),
        loop_count(ops) == loop_count(ops.take(i)) + loop_count(ops.skip(i)),
{
    assert(ops =~= ops.take(i) + ops.skip(i));
    lemma_counts_concat(ops.take(i), ops.skip(i));
}

/// A sequence of one node counts what the node counts.
pub proof fn lemma_counts_single(node: Node)
    ensures
        op_count(seq![node]) == node_op_count(node),
        loop_count(seq![node]) == node_loop_count(node),
{
    let one = seq![node];
    assert(one.skip(1) =~= Seq::<Node>::empty());
    assert(op_count(one) == node_op_count(one[0]) + op_count(one.skip(1)));
    assert(loop_count(one) == node_loop_count(one[0]) + loop_count(one.skip(1)));
}

/// One element counts no more than the sequence it stands in.
pub proof fn lemma_counts_index(ops: Seq<Node>, i: int)
    requires
        0 <= i < ops.len(),
    ensures
        op_count(ops) == op_count(ops.take(i)) + node_op_count(ops[i]) + op_count(ops.skip(i + 1)),
        loop_count(ops) == loop_count(ops.take(i)) + node_loop_count(ops[i]) + loop_count(
            ops.skip(i + 1),
        ),
{
    let rest = ops.skip(i);
    assert(ops =~= ops.take(i) + rest);
    lemma_counts_concat(ops.take(i), rest);
    assert(rest.skip(1) =~= ops.skip(i + 1));
}

/// The part before an index counts one element more when the index moves on.
pub proof fn lemma_counts_take_next(ops: Seq<Node>, i: int)
    requires
        0 <= i < ops.len(),
    ensures
        op_count(ops.take(i + 1)) == op_count(ops.take(i)) + node_op_count(ops[i]),
        loop_count(ops.take(i + 1)) == loop_count(ops.take(i)) + node_loop_count(ops[i]),
        op_count(ops.take(i + 1)) <= op_count(ops),
{
    assert(ops.take(i + 1) =~= ops.take(i) + seq![ops[i]]);
    lemma_counts_concat(ops.take(i), seq![ops[i]]);
    lemma_counts_single(ops[i]);
    lemma_counts_split(ops, i + 1);
}

/// Every loop is an instruction: there are no more loops than instructions.
pub proof fn lemma_loops_are_ops(ops: Seq<Node>)
    ensures
        loop_count(ops) <= op_count(ops),
    decreases ops,
{
    if ops.len() > 0 {
        lemma_loops_are_ops(ops.skip(1));
        match ops[0].kind.body() {
            Some(body) => lemma_loops_are_ops(body),
            None => {},
        }
        assert(node_loop_count(ops[0]) <= node_op_count(ops[0]));
    }
}

/// Counting is additive over concatenation.
pub proof fn lemma_counts_concat(a: Seq<Node>, b: Seq<Node>)
    ensures
        op_count(a + b) == op_count(a) + op_count(b),
        loop_count(a + b) == loop_count(a) + loop_count(b),
    decreases a.len(),
{
    if a.len() == 0 {
        assert(a + b =~= b);
    } else {
        assert((a + b).skip(1) =~= a.skip(1) + b);
        lemma_counts_concat(a.skip(1), b);
    }
}

impl Program {
    /// The number of instructions and the number of loops in the program,
    /// each counted afresh over the whole tree.
    pub fn get_statistics(&self) -> (statistics: (usize, usize))
        requires
            op_count(self@) <= usize::MAX,
        ensures
            statistics.0 == op_count(self@),
            statistics.1 == loop_count(self@),
    {
        self.get_ops_statistics(self.ops.as_slice())
    }

    /// The number of instructions and the number of loops in a sequence,
    /// bodies included.
    fn get_ops_statistics(&self, ops: &[Op]) -> (statistics: (usize, usize))
        requires
            op_count(nodes_of(ops@)) <= usize::MAX,
        ensures
            statistics.0 == op_count(nodes_of(ops@)),
            statistics.1 == loop_count(nodes_of(ops@)),
        decreases op_count(nodes_of(ops@)),
    {
        let ghost nodes = nodes_of(ops@);
        let mut op_total: usize = 0;
        let mut loop_total: usize = 0;
        let mut i: usize = 0;
        while i < ops.len()
            invariant
                i <= ops.len(),
                nodes == nodes_of(ops@),
                op_count(nodes) <= usize::MAX,
                op_total == op_count(nodes.take(i as int)),
                loop_total == loop_count(nodes.take(i as int)),
            decreases ops.len() - i,
        {
            proof {
                lemma_counts_take_next(nodes, i as int);
                lemma_loops_are_ops(nodes.take(i + 1));
            }
            let (inner_ops, inner_loops, is_loop) = match &ops[i].op_type {
                OpType::DLoop(children) => {
                    let inner = self.get_ops_statistics(children.as_slice());
                    (inner.0, inner.1, true)
                },
                OpType::ILoop(children, _, _) => {
                    let inner = self.get_ops_statistics(children.as_slice());
                    (inner.0, inner.1, true)
                },
                OpType::CLoop(children, _, _) => {
                    let inner = self.get_ops_statistics(children.as_slice());
                    (inner.0, inner.1, true)
                },
                OpType::TNz(children, _) => {
                    let inner = self.get_ops_statistics(children.as_slice());
                    (inner.0, inner.1, false)
                },
                _ => (0, 0, false),
            };
            op_total += 1 + inner_ops;
            loop_total += inner_loops;
            if is_loop {
                loop_total += 1;
            }
            i += 1;
        }
        proof {
            assert(nodes.take(i as int) =~= nodes);
        }
        (op_total, loop_total)
    }
}

} // verus!
