//! What a tree means: a model of the machine that runs it, for the
//! instructions that the parser and the optimizer produce.
//!
//! The model is for stating what the optimizer preserves; nothing in it is
//! executable. A run is given an amount of fuel, which bounds how deep loop
//! iterations may chain, so that the run of a program that never ends is
//! defined too: it stops where the fuel runs out.

use crate::ast::{Kind, Node};
use vstd::prelude::*;

verus! {

/// The sum of two cell counts, modulo 256.
pub open spec fn cell_sum(a: u8, b: u8) -> u8 {
    if a + b > u8::MAX {
        (a + b - 256) as u8
    } else {
        (a + b) as u8
    }
}

/// The difference of two cell counts, modulo 256.
pub open spec fn cell_diff(a: u8, b: u8) -> u8 {
    if a < b {
        (a - b + 256) as u8
    } else {
        (a - b) as u8
    }
}

/// The sum of two pointer counts, wrapped to the width of a pointer.
pub open spec fn ptr_sum(a: usize, b: usize) -> usize {
    if a + b > usize::MAX {
        (a + b - usize::MAX - 1) as usize
    } else {
        (a + b) as usize
    }
}

/// The difference of two pointer counts, wrapped to the width of a pointer.
pub open spec fn ptr_diff(a: usize, b: usize) -> usize {
    if a < b {
        (a - b + usize::MAX + 1) as usize
    } else {
        (a - b) as usize
    }
}

/// The state of the machine: the tape of cells, the data pointer, the input
/// that is still to be read and the output written so far.
pub struct Machine {
    /// The cells, by their position on the tape. Positions wrap at the width
    /// of a pointer.
    pub cells: Map<usize, u8>,
    /// The position of the current cell.
    pub pointer: usize,
    /// The bytes not yet read.
    pub input: Seq<u8>,
    /// The bytes written.
    pub output: Seq<u8>,
    /// What a read stores once the input is used up: the given value, or
    /// nothing, which leaves the cell as it is.
    pub end_of_input: Option<u8>,
}

impl Machine {
    /// Whether the tape has a cell at every position.
    pub open spec fn wf(self) -> bool {
        forall|position: usize| self.cells.dom().contains(position)
    }

    /// The machine before a program starts: every cell zero, the pointer on
    /// the first, nothing written.
    pub open spec fn start(input: Seq<u8>, end_of_input: Option<u8>) -> Machine {
        Machine {
            cells: Map::total(|position: usize| 0u8),
            pointer: 0,
            input,
            output: Seq::empty(),
            end_of_input,
        }
    }

    /// The value of the current cell.
    pub open spec fn cell(self) -> u8 {
        self.cells[self.pointer]
    }

    /// The machine with a value stored in the current cell.
    pub open spec fn with_cell(self, value: u8) -> Machine {
        Machine { cells: self.cells.insert(self.pointer, value), ..self }
    }

    /// The machine with the pointer at another position.
    pub open spec fn with_pointer(self, pointer: usize) -> Machine {
        Machine { pointer, ..self }
    }

    /// The machine after one byte has been read into the current cell.
    pub open spec fn after_read(self) -> Machine {
        if self.input.len() > 0 {
            Machine { input: self.input.skip(1), ..self.with_cell(self.input[0]) }
        } else {
            match self.end_of_input {
                Some(value) => self.with_cell(value),
                None => self,
            }
        }
    }

    /// The machine after the current cell has been written.
    pub open spec fn after_write(self) -> Machine {
        Machine { output: self.output.push(self.cell()), ..self }
    }

    /// The machine after an instruction that is no loop.
    pub open spec fn after(self, kind: Kind) -> Machine {
        match kind {
            Kind::IncPtr(count) => self.with_pointer(ptr_sum(self.pointer, count)),
            Kind::DecPtr(count) => self.with_pointer(ptr_diff(self.pointer, count)),
            Kind::Inc(count) => self.with_cell(cell_sum(self.cell(), count)),
            Kind::Dec(count) => self.with_cell(cell_diff(self.cell(), count)),
            Kind::SetCell(value) => self.with_cell(value),
            Kind::PutChar => self.after_write(),
            Kind::GetChar => self.after_read(),
            _ => self,
        }
    }
}

/// Whether the model says what an instruction of this kind does, its body
/// apart.
pub open spec fn is_modelled(kind: Kind) -> bool {
    kind is IncPtr || kind is DecPtr || kind is Inc || kind is Dec || kind is SetCell
        || kind is PutChar || kind is GetChar || kind is DLoop
}

/// Whether the model covers every instruction of a sequence, bodies
/// included.
pub open spec fn in_model(ops: Seq<Node>) -> bool
    decreases ops,
{
    ops.len() > 0 ==> node_in_model(ops[0]) && in_model(ops.skip(1))
}

/// Whether the model covers an instruction and everything in its body.
pub open spec fn node_in_model(node: Node) -> bool
    decreases node,
{
    is_modelled(node.kind) && match node.kind {
        Kind::DLoop(body) => in_model(body),
        _ => true,
    }
}

/// The model covers two sequences joined where it covers both.
pub proof fn lemma_in_model_concat(a: Seq<Node>, b: Seq<Node>)
    ensures
        in_model(a + b) <==> in_model(a) && in_model(b),
    decreases a.len(),
{
    if a.len() == 0 {
        assert(a + b =~= b);
    } else {
        assert((a + b).skip(1) =~= a.skip(1) + b);
        lemma_in_model_concat(a.skip(1), b);
    }
}

/// The model covers a sequence of one instruction where it covers the
/// instruction.
pub proof fn lemma_in_model_single(node: Node)
    ensures
        in_model(seq![node]) <==> node_in_model(node),
{
    let one = seq![node];
    assert(one.skip(1) =~= Seq::<Node>::empty());
    assert(one[0] == node);
    assert(in_model(one.skip(1)));
}

/// Where a run stands when it ends: the machine as it is then, and whether
/// the program ran to its end. A run that did not was cut off, by want of
/// fuel or at an instruction outside the model.
pub struct Run {
    pub machine: Machine,
    pub halted: bool,
}

/// The run of a sequence of instructions, one after the other.
pub open spec fn run(ops: Seq<Node>, machine: Machine, fuel: nat) -> Run
    decreases fuel, ops,
{
    if ops.len() == 0 {
        Run { machine, halted: true }
    } else {
        let first = run_node(ops[0], machine, fuel);
        if first.halted {
            run(ops.skip(1), first.machine, fuel)
        } else {
            first
        }
    }
}

/// The run of one instruction. A dynamic loop tests the current cell: on
/// zero it is done; otherwise it runs its body and then itself again, each
/// on one unit of fuel less.
pub open spec fn run_node(node: Node, machine: Machine, fuel: nat) -> Run
    decreases fuel, node,
{
    match node.kind {
        Kind::DLoop(body) => {
            if machine.cell() == 0 {
                Run { machine, halted: true }
            } else if fuel == 0 {
                Run { machine, halted: false }
            } else {
                let once = run(body, machine, (fuel - 1) as nat);
                if once.halted {
                    run_node(node, once.machine, (fuel - 1) as nat)
                } else {
                    once
                }
            }
        },
        kind => Run { machine: machine.after(kind), halted: is_modelled(kind) },
    }
}

/// Whether a second run carries on a first: where the first ran to its end,
/// the second ends in the same state; where the first was cut off, the second
/// has written at least what the first had written by then.
pub open spec fn carries_on(first: Run, second: Run) -> bool {
    if first.halted {
        second == first
    } else {
        first.machine.output.is_prefix_of(second.machine.output)
    }
}

/// A run keeps the tape whole.
pub proof fn lemma_run_keeps_tape(ops: Seq<Node>, machine: Machine, fuel: nat)
    requires
        machine.wf(),
    ensures
        run(ops, machine, fuel).machine.wf(),
        run(ops, machine, fuel).machine.end_of_input == machine.end_of_input,
        machine.output.is_prefix_of(run(ops, machine, fuel).machine.output),
    decreases fuel, ops,
{
    if ops.len() > 0 {
        lemma_run_node_keeps_tape(ops[0], machine, fuel);
        let first = run_node(ops[0], machine, fuel);
        if first.halted {
            lemma_run_keeps_tape(ops.skip(1), first.machine, fuel);
        }
    }
}

/// The run of one instruction keeps the tape whole.
pub proof fn lemma_run_node_keeps_tape(node: Node, machine: Machine, fuel: nat)
    requires
        machine.wf(),
    ensures
        run_node(node, machine, fuel).machine.wf(),
        run_node(node, machine, fuel).machine.end_of_input == machine.end_of_input,
        machine.output.is_prefix_of(run_node(node, machine, fuel).machine.output),
    decreases fuel, node,
{
    match node.kind {
        Kind::DLoop(body) => {
            if machine.cell() != 0 && fuel > 0 {
                lemma_run_keeps_tape(body, machine, (fuel - 1) as nat);
                let once = run(body, machine, (fuel - 1) as nat);
                if once.halted {
                    lemma_run_node_keeps_tape(node, once.machine, (fuel - 1) as nat);
                }
            }
        },
        _ => {},
    }
}

/// The run of two sequences joined is the run of the first and then, if it
/// halts, the run of the second.
pub proof fn lemma_run_concat(a: Seq<Node>, b: Seq<Node>, machine: Machine, fuel: nat)
    ensures
        run(a + b, machine, fuel) == if run(a, machine, fuel).halted {
            run(b, run(a, machine, fuel).machine, fuel)
        } else {
            run(a, machine, fuel)
        },
    decreases a.len(),
{
    if a.len() == 0 {
        assert(a + b =~= b);
    } else {
        assert((a + b).skip(1) =~= a.skip(1) + b);
        let first = run_node(a[0], machine, fuel);
        if first.halted {
            lemma_run_concat(a.skip(1), b, first.machine, fuel);
        }
    }
}

/// The run of a sequence of one instruction is the run of the instruction.
pub proof fn lemma_run_single(node: Node, machine: Machine, fuel: nat)
    ensures
        run(seq![node], machine, fuel) == run_node(node, machine, fuel),
{
    let one = seq![node];
    let first = run_node(node, machine, fuel);
    assert(one.skip(1) =~= Seq::<Node>::empty());
    assert(one[0] == node);
    assert(run(one.skip(1), first.machine, fuel) == (Run { machine: first.machine, halted: true }));
}

} // verus!
