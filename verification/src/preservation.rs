//! The optimizer preserves what a program does: the proof, pass by pass, that
//! the run of an optimized tree carries on the run of the tree it came from.

use crate::ast::{lemma_counts_concat, lemma_counts_single, node_op_count, op_count, Kind, Node};
use crate::machine::{
    carries_on, in_model, is_modelled, lemma_in_model_concat, lemma_in_model_single,
    lemma_run_concat, lemma_run_keeps_tape, lemma_run_node_keeps_tape, lemma_run_single,
    node_in_model, run, run_node, Machine, Run,
};
use crate::optimizer::{
    collapsed_node, emptied_inside, fuse_pair, fused, fused_inside, is_empty_loop, is_zero_loop,
    merged_node, optimized, round, round_progresses, without_empty_loops, without_leading_loops,
    zero_loops_collapsed, Fusion,
};
use vstd::prelude::*;

verus! {

/// Carrying on passes along a chain of runs.
proof fn lemma_carries_on_chain(first: Run, second: Run, third: Run)
    requires
        carries_on(first, second),
        carries_on(second, third),
    ensures
        carries_on(first, third),
{
}

/// Carrying on passes from the parts of two sequences to the whole: where
/// the run of `a2` carries on that of `a`, and the run of `b2` carries on
/// that of `b` from where `a` halts, the run of `a2` and then `b2` carries
/// on that of `a` and then `b`.
proof fn lemma_carries_on_joined(
    a: Seq<Node>,
    a2: Seq<Node>,
    b: Seq<Node>,
    b2: Seq<Node>,
    machine: Machine,
    fuel: nat,
)
    requires
        machine.wf(),
        carries_on(run(a, machine, fuel), run(a2, machine, fuel)),
        run(a, machine, fuel).halted ==> carries_on(
            run(b, run(a, machine, fuel).machine, fuel),
            run(b2, run(a, machine, fuel).machine, fuel),
        ),
    ensures
        carries_on(run(a + b, machine, fuel), run(a2 + b2, machine, fuel)),
{
    lemma_run_concat(a, b, machine, fuel);
    lemma_run_concat(a2, b2, machine, fuel);
    let first = run(a, machine, fuel);
    let second = run(a2, machine, fuel);
    if !first.halted && second.halted {
        lemma_run_keeps_tape(a2, machine, fuel);
        lemma_run_keeps_tape(b2, second.machine, fuel);
    }
}

/// Carrying on passes from the bodies of two dynamic loops to the loops:
/// where the run of one body carries on that of the other from every state
/// and on any fuel less than given, the same holds of the loops on the fuel
/// given.
proof fn lemma_carries_on_looped(
    node: Node,
    node2: Node,
    machine: Machine,
    fuel: nat,
)
    requires
        machine.wf(),
        node.kind is DLoop,
        node2.kind is DLoop,
        forall|from: Machine, less: nat|
            from.wf() && less < fuel ==> carries_on(
                #[trigger] run(node.kind->DLoop_0, from, less),
                run(node2.kind->DLoop_0, from, less),
            ),
    ensures
        carries_on(run_node(node, machine, fuel), run_node(node2, machine, fuel)),
    decreases fuel,
{
    let body = node.kind->DLoop_0;
    let body2 = node2.kind->DLoop_0;
    if machine.cell() != 0 && fuel > 0 {
        let less = (fuel - 1) as nat;
        let once = run(body, machine, less);
        let once2 = run(body2, machine, less);
        assert(carries_on(once, once2));
        lemma_run_keeps_tape(body, machine, less);
        lemma_run_keeps_tape(body2, machine, less);
        if once.halted {
            lemma_carries_on_looped(node, node2, once.machine, less);
        } else if once2.halted {
            lemma_run_node_keeps_tape(node2, once2.machine, less);
        }
    }
}

/// An empty loop either lets the run pass as it is or holds it for good.
proof fn lemma_empty_loop_run(node: Node, machine: Machine, fuel: nat)
    requires
        is_empty_loop(node),
    ensures
        run_node(node, machine, fuel).machine == machine,
        run_node(node, machine, fuel).halted == (machine.cell() == 0),
    decreases fuel,
{
    if machine.cell() != 0 && fuel > 0 {
        let less = (fuel - 1) as nat;
        let body = node.kind->DLoop_0;
        assert(run(body, machine, less) == (Run { machine, halted: true }));
        lemma_empty_loop_run(node, machine, less);
    }
}

/// The empty-loop pass preserves what a sequence does.
pub proof fn lemma_emptied_carries_on(ops: Seq<Node>, machine: Machine, fuel: nat)
    requires
        machine.wf(),
    ensures
        carries_on(run(ops, machine, fuel), run(without_empty_loops(ops), machine, fuel)),
    decreases ops, 1nat,
{
    if ops.len() > 0 {
        let rest = ops.skip(1);
        let first = run_node(ops[0], machine, fuel);
        if is_empty_loop(ops[0]) {
            lemma_empty_loop_run(ops[0], machine, fuel);
            if first.halted {
                lemma_emptied_carries_on(rest, machine, fuel);
            } else {
                lemma_run_keeps_tape(without_empty_loops(rest), machine, fuel);
            }
        } else {
            let one = seq![ops[0]];
            let one2 = seq![emptied_inside(ops[0])];
            assert(ops =~= one + rest);
            lemma_run_single(ops[0], machine, fuel);
            lemma_run_single(emptied_inside(ops[0]), machine, fuel);
            lemma_emptied_inside_carries_on(ops[0], machine, fuel);
            if first.halted {
                lemma_run_node_keeps_tape(ops[0], machine, fuel);
                lemma_emptied_carries_on(rest, first.machine, fuel);
            }
            lemma_carries_on_joined(one, one2, rest, without_empty_loops(rest), machine, fuel);
        }
    }
}

/// The empty-loop pass preserves what an instruction does.
proof fn lemma_emptied_inside_carries_on(node: Node, machine: Machine, fuel: nat)
    requires
        machine.wf(),
    ensures
        carries_on(run_node(node, machine, fuel), run_node(emptied_inside(node), machine, fuel)),
    decreases node, 0nat,
{
    match node.kind {
        Kind::DLoop(body) => {
            assert forall|from: Machine, less: nat| from.wf() && less < fuel implies carries_on(
                #[trigger] run(body, from, less),
                run(without_empty_loops(body), from, less),
            ) by {
                lemma_emptied_carries_on(body, from, less);
            }
            lemma_carries_on_looped(node, emptied_inside(node), machine, fuel);
        },
        _ => {},
    }
}

/// A zero loop changes the current cell and nothing else, and where it
/// halts the cell is zero.
proof fn lemma_zero_loop_run(node: Node, machine: Machine, fuel: nat)
    requires
        machine.wf(),
        is_zero_loop(node),
    ensures
        run_node(node, machine, fuel).halted ==> run_node(node, machine, fuel).machine
            == machine.with_cell(0),
        run_node(node, machine, fuel).machine.output == machine.output,
    decreases fuel,
{
    let body = node.kind->DLoop_0;
    if machine.cell() == 0 {
        assert(machine.with_cell(0).cells =~= machine.cells);
    } else if fuel > 0 {
        let less = (fuel - 1) as nat;
        assert(body =~= seq![body[0]]);
        lemma_run_single(body[0], machine, less);
        let once = run(body, machine, less);
        assert(once.halted);
        assert(once.machine == machine.after(Kind::Dec(1)));
        lemma_zero_loop_run(node, once.machine, less);
        assert(once.machine.with_cell(0).cells =~= machine.with_cell(0).cells);
    }
}

/// The zero-loop pass preserves what an instruction does.
proof fn lemma_collapsed_node_carries_on(node: Node, machine: Machine, fuel: nat)
    requires
        machine.wf(),
    ensures
        carries_on(run_node(node, machine, fuel), run_node(collapsed_node(node), machine, fuel)),
    decreases node, 0nat,
{
    match node.kind {
        Kind::DLoop(body) => {
            if is_zero_loop(node) {
                lemma_zero_loop_run(node, machine, fuel);
            } else {
                assert forall|from: Machine, less: nat|
                    from.wf() && less < fuel implies carries_on(
                    #[trigger] run(body, from, less),
                    run(zero_loops_collapsed(body), from, less),
                ) by {
                    lemma_collapsed_carries_on(body, from, less);
                }
                lemma_carries_on_looped(node, collapsed_node(node), machine, fuel);
            }
        },
        _ => {},
    }
}

/// The zero-loop pass preserves what a sequence does.
pub proof fn lemma_collapsed_carries_on(ops: Seq<Node>, machine: Machine, fuel: nat)
    requires
        machine.wf(),
    ensures
        carries_on(run(ops, machine, fuel), run(zero_loops_collapsed(ops), machine, fuel)),
    decreases ops, 1nat,
{
    if ops.len() > 0 {
        let rest = ops.skip(1);
        let first = run_node(ops[0], machine, fuel);
        let one = seq![ops[0]];
        let one2 = seq![collapsed_node(ops[0])];
        assert(ops =~= one + rest);
        assert(zero_loops_collapsed(ops) =~= one2 + zero_loops_collapsed(rest));
        lemma_run_single(ops[0], machine, fuel);
        lemma_run_single(collapsed_node(ops[0]), machine, fuel);
        lemma_collapsed_node_carries_on(ops[0], machine, fuel);
        if first.halted {
            lemma_run_node_keeps_tape(ops[0], machine, fuel);
            lemma_collapsed_carries_on(rest, first.machine, fuel);
        }
        lemma_carries_on_joined(one, one2, rest, zero_loops_collapsed(rest), machine, fuel);
    } else {
        assert(zero_loops_collapsed(ops) =~= ops);
    }
}

/// What a fused pair does: where two instructions cancel, the machine is
/// after both as it was before; where they merge, it is after both as after
/// their fusion. Either way both are instructions that the model covers and
/// that are no loops.
proof fn lemma_pair_after(first: Kind, second: Kind, machine: Machine)
    requires
        machine.wf(),
    ensures
        match fuse_pair(first, second) {
            Fusion::Apart => true,
            Fusion::Cancelled => {
                &&& is_modelled(first) && !(first is DLoop)
                &&& is_modelled(second) && !(second is DLoop)
                &&& machine.after(first).after(second) == machine
            },
            Fusion::Merged(kind) => {
                &&& is_modelled(first) && !(first is DLoop)
                &&& is_modelled(second) && !(second is DLoop)
                &&& is_modelled(kind) && !(kind is DLoop)
                &&& machine.after(first).after(second) == machine.after(kind)
            },
        },
{
    let both = machine.after(first).after(second);
    match fuse_pair(first, second) {
        Fusion::Apart => {},
        Fusion::Cancelled => {
            assert(both.cells =~= machine.cells);
        },
        Fusion::Merged(kind) => {
            assert(both.cells =~= machine.after(kind).cells);
        },
    }
}

/// The run of a sequence that starts with an instruction which is no loop
/// and which the model covers: the instruction, then the rest.
proof fn lemma_run_plain_first(ops: Seq<Node>, machine: Machine, fuel: nat)
    requires
        ops.len() > 0,
        is_modelled(ops[0].kind),
        !(ops[0].kind is DLoop),
    ensures
        run(ops, machine, fuel) == run(ops.skip(1), machine.after(ops[0].kind), fuel),
{
    let first = run_node(ops[0], machine, fuel);
    assert(first == (Run { machine: machine.after(ops[0].kind), halted: true }));
}

/// The fusion pass preserves what a sequence does.
pub proof fn lemma_fused_carries_on(ops: Seq<Node>, machine: Machine, fuel: nat)
    requires
        machine.wf(),
    ensures
        carries_on(run(ops, machine, fuel), run(fused(ops), machine, fuel)),
    decreases op_count(ops), 1nat,
{
    if ops.len() == 0 {
    } else if ops.len() == 1 {
        assert(ops =~= seq![ops[0]]);
        lemma_counts_single(ops[0]);
        lemma_run_single(ops[0], machine, fuel);
        lemma_run_single(fused_inside(ops[0]), machine, fuel);
        lemma_fused_inside_carries_on(ops[0], machine, fuel);
    } else {
        let rest = ops.skip(1);
        let tail = ops.skip(2);
        assert(rest.skip(1) =~= tail);
        assert(op_count(ops) == node_op_count(ops[0]) + op_count(rest));
        assert(op_count(rest) == node_op_count(rest[0]) + op_count(tail));
        lemma_pair_after(ops[0].kind, ops[1].kind, machine);
        match fuse_pair(ops[0].kind, ops[1].kind) {
            Fusion::Cancelled => {
                lemma_run_plain_first(ops, machine, fuel);
                lemma_run_plain_first(rest, machine.after(ops[0].kind), fuel);
                lemma_fused_carries_on(tail, machine, fuel);
            },
            Fusion::Merged(kind) => {
                let merged = merged_node(kind, ops[0], ops[1]);
                let joined = seq![merged] + tail;
                assert(joined.skip(1) =~= tail);
                assert(joined[0] == merged);
                lemma_counts_concat(seq![merged], tail);
                lemma_counts_single(merged);
                lemma_run_plain_first(ops, machine, fuel);
                lemma_run_plain_first(rest, machine.after(ops[0].kind), fuel);
                lemma_run_plain_first(joined, machine, fuel);
                lemma_fused_carries_on(joined, machine, fuel);
            },
            Fusion::Apart => {
                let first = run_node(ops[0], machine, fuel);
                let one = seq![ops[0]];
                let one2 = seq![fused_inside(ops[0])];
                assert(ops =~= one + rest);
                lemma_run_single(ops[0], machine, fuel);
                lemma_run_single(fused_inside(ops[0]), machine, fuel);
                lemma_fused_inside_carries_on(ops[0], machine, fuel);
                if first.halted {
                    lemma_run_node_keeps_tape(ops[0], machine, fuel);
                    lemma_fused_carries_on(rest, first.machine, fuel);
                }
                lemma_carries_on_joined(one, one2, rest, fused(rest), machine, fuel);
            },
        }
    }
}

/// The fusion pass preserves what an instruction does.
proof fn lemma_fused_inside_carries_on(node: Node, machine: Machine, fuel: nat)
    requires
        machine.wf(),
    ensures
        carries_on(run_node(node, machine, fuel), run_node(fused_inside(node), machine, fuel)),
    decreases node_op_count(node), 0nat,
{
    match node.kind {
        Kind::DLoop(body) => {
            assert forall|from: Machine, less: nat| from.wf() && less < fuel implies carries_on(
                #[trigger] run(body, from, less),
                run(fused(body), from, less),
            ) by {
                lemma_fused_carries_on(body, from, less);
            }
            lemma_carries_on_looped(node, fused_inside(node), machine, fuel);
        },
        _ => {},
    }
}

/// The elision of leading loops preserves what a program does, given that
/// the current cell is zero when the program starts.
pub proof fn lemma_elided_runs_alike(ops: Seq<Node>, machine: Machine, fuel: nat)
    requires
        machine.cell() == 0,
    ensures
        run(without_leading_loops(ops), machine, fuel) == run(ops, machine, fuel),
    decreases ops.len(),
{
    if ops.len() > 0 && ops[0].kind is DLoop {
        let first = run_node(ops[0], machine, fuel);
        assert(first == (Run { machine, halted: true }));
        lemma_elided_runs_alike(ops.skip(1), machine, fuel);
    }
}

/// One round of the optimizer preserves what a program does.
pub proof fn lemma_round_carries_on(ops: Seq<Node>, machine: Machine, fuel: nat)
    requires
        machine.wf(),
        machine.cell() == 0,
    ensures
        carries_on(run(ops, machine, fuel), run(round(ops), machine, fuel)),
{
    let elided = without_leading_loops(ops);
    let emptied = without_empty_loops(elided);
    let collapsed = zero_loops_collapsed(emptied);
    lemma_elided_runs_alike(ops, machine, fuel);
    lemma_emptied_carries_on(elided, machine, fuel);
    lemma_collapsed_carries_on(emptied, machine, fuel);
    lemma_fused_carries_on(collapsed, machine, fuel);
    lemma_carries_on_chain(
        run(elided, machine, fuel),
        run(emptied, machine, fuel),
        run(collapsed, machine, fuel),
    );
    lemma_carries_on_chain(
        run(elided, machine, fuel),
        run(collapsed, machine, fuel),
        run(fused(collapsed), machine, fuel),
    );
}

/// Semantic preservation: the optimized program does what the program did.
///
/// Started on a whole tape with the current cell zero, as every program is,
/// and given the same input and the same fuel: where the run of the program
/// halts, the run of the optimized program halts in the same state, with the
/// same output; where it is cut off, the optimized program has by then
/// written at least the same output.
///
/// The converse does not hold. The optimizer removes loops that never end
/// without writing anything, so the optimized program may go on where the
/// program hangs.
pub proof fn optimization_preserves_meaning(
    ops: Seq<Node>,
    cap: nat,
    machine: Machine,
    fuel: nat,
)
    requires
        machine.wf(),
        machine.cell() == 0,
    ensures
        carries_on(run(ops, machine, fuel), run(optimized(ops, cap), machine, fuel)),
    decreases cap,
{
    if cap > 0 {
        lemma_round_carries_on(ops, machine, fuel);
        if round_progresses(ops) {
            optimization_preserves_meaning(round(ops), (cap - 1) as nat, machine, fuel);
            lemma_carries_on_chain(
                run(ops, machine, fuel),
                run(round(ops), machine, fuel),
                run(optimized(round(ops), (cap - 1) as nat), machine, fuel),
            );
        }
    }
}

/// Semantic preservation for a program as it starts: on a tape of zeros,
/// with the pointer on the first cell and nothing written, whatever the
/// input and whatever a read does at its end, the optimized tree carries on
/// the run of the tree it came from.
pub proof fn optimized_program_runs_alike(
    ops: Seq<Node>,
    cap: nat,
    input: Seq<u8>,
    end_of_input: Option<u8>,
    fuel: nat,
)
    ensures
        carries_on(
            run(ops, Machine::start(input, end_of_input), fuel),
            run(optimized(ops, cap), Machine::start(input, end_of_input), fuel),
        ),
{
    optimization_preserves_meaning(ops, cap, Machine::start(input, end_of_input), fuel);
}

/// The empty-loop pass stays within the model.
proof fn lemma_emptied_in_model(ops: Seq<Node>)
    requires
        in_model(ops),
    ensures
        in_model(without_empty_loops(ops)),
    decreases ops,
{
    if ops.len() > 0 {
        assert(node_in_model(ops[0]) && in_model(ops.skip(1)));
        lemma_emptied_in_model(ops.skip(1));
        if !is_empty_loop(ops[0]) {
            match ops[0].kind {
                Kind::DLoop(body) => lemma_emptied_in_model(body),
                _ => {},
            }
            lemma_in_model_single(emptied_inside(ops[0]));
            lemma_in_model_concat(seq![emptied_inside(ops[0])], without_empty_loops(ops.skip(1)));
        }
    }
}

/// The zero-loop pass stays within the model.
proof fn lemma_collapsed_in_model(ops: Seq<Node>)
    requires
        in_model(ops),
    ensures
        in_model(zero_loops_collapsed(ops)),
    decreases ops,
{
    if ops.len() > 0 {
        let rest = ops.skip(1);
        assert(node_in_model(ops[0]) && in_model(rest));
        lemma_collapsed_in_model(rest);
        match ops[0].kind {
            Kind::DLoop(body) => {
                if !is_zero_loop(ops[0]) {
                    lemma_collapsed_in_model(body);
                }
            },
            _ => {},
        }
        assert(zero_loops_collapsed(ops) =~= seq![collapsed_node(ops[0])] + zero_loops_collapsed(
            rest,
        ));
        lemma_in_model_single(collapsed_node(ops[0]));
        lemma_in_model_concat(seq![collapsed_node(ops[0])], zero_loops_collapsed(rest));
    } else {
        assert(zero_loops_collapsed(ops) =~= ops);
    }
}

/// The fusion pass stays within the model.
proof fn lemma_fused_in_model(ops: Seq<Node>)
    requires
        in_model(ops),
    ensures
        in_model(fused(ops)),
    decreases op_count(ops),
{
    if ops.len() == 0 {
    } else {
        let rest = ops.skip(1);
        assert(op_count(ops) == node_op_count(ops[0]) + op_count(rest));
        assert(node_in_model(ops[0]) && in_model(rest));
        match ops[0].kind {
            Kind::DLoop(body) => lemma_fused_in_model(body),
            _ => {},
        }
        lemma_in_model_single(fused_inside(ops[0]));
        if ops.len() == 1 {
        } else {
            let tail = ops.skip(2);
            assert(rest.skip(1) =~= tail);
            assert(op_count(rest) == node_op_count(rest[0]) + op_count(tail));
            assert(node_in_model(rest[0]) && in_model(tail));
            match fuse_pair(ops[0].kind, ops[1].kind) {
                Fusion::Cancelled => {
                    lemma_fused_in_model(tail);
                },
                Fusion::Merged(kind) => {
                    let merged = merged_node(kind, ops[0], ops[1]);
                    let joined = seq![merged] + tail;
                    lemma_counts_concat(seq![merged], tail);
                    lemma_counts_single(merged);
                    lemma_in_model_single(merged);
                    lemma_in_model_concat(seq![merged], tail);
                    lemma_fused_in_model(joined);
                },
                Fusion::Apart => {
                    lemma_fused_in_model(rest);
                    lemma_in_model_concat(seq![fused_inside(ops[0])], fused(rest));
                },
            }
        }
    }
}

/// The elision of leading loops stays within the model.
proof fn lemma_elided_in_model(ops: Seq<Node>)
    requires
        in_model(ops),
    ensures
        in_model(without_leading_loops(ops)),
    decreases ops.len(),
{
    if ops.len() > 0 && ops[0].kind is DLoop {
        lemma_elided_in_model(ops.skip(1));
    }
}

/// The optimizer stays within the model: where the model covers every
/// instruction of a program, it covers every instruction of the optimized
/// program, so that no run of either is cut off but by want of fuel.
pub proof fn optimization_stays_in_model(ops: Seq<Node>, cap: nat)
    requires
        in_model(ops),
    ensures
        in_model(round(ops)),
        in_model(optimized(ops, cap)),
    decreases cap,
{
    let elided = without_leading_loops(ops);
    let emptied = without_empty_loops(elided);
    let collapsed = zero_loops_collapsed(emptied);
    lemma_elided_in_model(ops);
    lemma_emptied_in_model(elided);
    lemma_collapsed_in_model(emptied);
    lemma_fused_in_model(collapsed);
    if cap > 0 && round_progresses(ops) {
        optimization_stays_in_model(round(ops), (cap - 1) as nat);
    }
}

} // verus!
