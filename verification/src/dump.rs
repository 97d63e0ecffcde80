//! A listing of a program, one line for each instruction: where it stands in
//! the source, then, indented by its depth, what it does.

use crate::ast::{
    lemma_counts_index, node_op_count, nodes_of, op_count, Kind, Node, Op, OpType, Program,
};
use crate::spans::{node_spans_in_order, spans_in_order};
use vstd::prelude::*;
use vstd::string::StringExecFns;

verus! {

/// The width that the position at the start of a line is padded to.
pub const POSITION_WIDTH: usize = 16;

/// The digit for a value below sixteen.
pub open spec fn digit(value: nat) -> Seq<char> {
    if value == 0 {
        "0"@
    } else if value == 1 {
        "1"@
    } else if value == 2 {
        "2"@
    } else if value == 3 {
        "3"@
    } else if value == 4 {
        "4"@
    } else if value == 5 {
        "5"@
    } else if value == 6 {
        "6"@
    } else if value == 7 {
        "7"@
    } else if value == 8 {
        "8"@
    } else if value == 9 {
        "9"@
    } else if value == 10 {
        "a"@
    } else if value == 11 {
        "b"@
    } else if value == 12 {
        "c"@
    } else if value == 13 {
        "d"@
    } else if value == 14 {
        "e"@
    } else {
        "f"@
    }
}

/// A number written in decimal, without leading zeros.
pub open spec fn decimal(value: nat) -> Seq<char>
    decreases value,
{
    if value < 10 {
        digit(value)
    } else {
        decimal(value / 10) + digit(value % 10)
    }
}

/// A number written in hexadecimal, in lower case and without leading
/// zeros.
pub open spec fn hexadecimal(value: nat) -> Seq<char>
    decreases value,
{
    if value < 16 {
        digit(value)
    } else {
        hexadecimal(value / 16) + digit(value % 16)
    }
}

/// A signed number written in decimal, with a minus sign if it is negative.
pub open spec fn signed_decimal(value: int) -> Seq<char> {
    if value < 0 {
        "-"@ + decimal((-value) as nat)
    } else {
        decimal(value as nat)
    }
}

/// A run of spaces.
pub open spec fn spaces(count: nat) -> Seq<char> {
    Seq::new(count, |i: int| ' ')
}

/// Where an instruction stands in the source: its first and its last byte in
/// hexadecimal, filled with spaces to the width of the column.
pub open spec fn position_text(node: Node) -> Seq<char> {
    let position = "0x"@ + hexadecimal(node.span.start as nat) + "..0x"@ + hexadecimal(
        (node.span.end - 1) as nat,
    );
    if position.len() < POSITION_WIDTH {
        position + spaces((POSITION_WIDTH - position.len()) as nat)
    } else {
        position
    }
}

/// What an instruction does, in words, as the rest of its line.
pub open spec fn mnemonic(kind: Kind) -> Seq<char> {
    match kind {
        Kind::IncPtr(count) => "INC_PTR "@ + decimal(count as nat) + "\n"@,
        Kind::DecPtr(count) => "DEC_PTR "@ + decimal(count as nat) + "\n"@,
        Kind::Inc(count) => "INC "@ + decimal(count as nat) + "\n"@,
        Kind::Dec(count) => "DEC "@ + decimal(count as nat) + "\n"@,
        Kind::SetCell(value) => "SET "@ + decimal(value as nat) + "\n"@,
        Kind::Add(offset, multi) => "ADD offset: "@ + signed_decimal(offset as int)
            + " multiply: "@ + decimal(multi as nat) + "\n"@,
        Kind::Sub(offset, multi) => "SUB offset: "@ + signed_decimal(offset as int)
            + " multiply: "@ + decimal(multi as nat) + "\n"@,
        Kind::PutChar => "PUT\n"@,
        Kind::GetChar => "GET\n"@,
        Kind::DLoop(_) => "DLOOP\n"@,
        Kind::ILoop(_, offset, step) => "ILOOP offset: "@ + signed_decimal(offset as int)
            + " step: "@ + decimal(step as nat) + "\n"@,
        Kind::CLoop(_, offset, iterations) => "CLOOP offset: "@ + signed_decimal(offset as int)
            + " iterations: "@ + decimal(iterations as nat) + "\n"@,
        Kind::TNz(_, offset) => "TNZ offset: "@ + signed_decimal(offset as int) + " \n"@,
        Kind::SearchZero(step) => "S_ZERO "@ + signed_decimal(step as int) + " \n"@,
    }
}

/// The listing of a sequence at a depth: the lines of its instructions in
/// order.
pub open spec fn listing(ops: Seq<Node>, indent: nat) -> Seq<char>
    decreases ops,
{
    if ops.len() == 0 {
        Seq::empty()
    } else {
        node_listing(ops[0], indent) + listing(ops.skip(1), indent)
    }
}

/// The listing of one instruction at a depth: its line, then the listing of
/// its body, if it has one, one level deeper.
pub open spec fn node_listing(node: Node, indent: nat) -> Seq<char>
    decreases node,
{
    position_text(node) + spaces(2 * indent) + mnemonic(node.kind) + match node.kind {
        Kind::DLoop(body) => listing(body, indent + 1),
        Kind::ILoop(body, _, _) => listing(body, indent + 1),
        Kind::CLoop(body, _, _) => listing(body, indent + 1),
        Kind::TNz(body, _) => listing(body, indent + 1),
        _ => Seq::empty(),
    }
}

/// Whether every instruction of a sequence covers at least one byte, so that
/// it has a last byte to list.
pub open spec fn has_extent(ops: Seq<Node>) -> bool
    decreases ops,
{
    ops.len() > 0 ==> node_has_extent(ops[0]) && has_extent(ops.skip(1))
}

/// Whether an instruction and everything in its body covers at least one
/// byte.
pub open spec fn node_has_extent(node: Node) -> bool
    decreases node,
{
    node.span.end >= 1 && match node.kind {
        Kind::DLoop(body) => has_extent(body),
        Kind::ILoop(body, _, _) => has_extent(body),
        Kind::CLoop(body, _, _) => has_extent(body),
        Kind::TNz(body, _) => has_extent(body),
        _ => true,
    }
}

/// A sequence whose spans are in order can be listed: every instruction in
/// it covers at least one byte.
pub proof fn lemma_spans_in_order_have_extent(ops: Seq<Node>, from: int, to: int)
    requires
        spans_in_order(ops, from, to),
    ensures
        has_extent(ops),
    decreases ops,
{
    if ops.len() > 0 {
        let start = ops[0].span.start as int;
        let end = ops[0].span.end as int;
        assert(node_spans_in_order(ops[0]) && spans_in_order(ops.skip(1), end, to));
        lemma_spans_in_order_have_extent(ops.skip(1), end, to);
        match ops[0].kind {
            Kind::DLoop(body) => lemma_spans_in_order_have_extent(body, start, end),
            Kind::ILoop(body, _, _) => lemma_spans_in_order_have_extent(body, start, end),
            Kind::CLoop(body, _, _) => lemma_spans_in_order_have_extent(body, start, end),
            Kind::TNz(body, _) => lemma_spans_in_order_have_extent(body, start, end),
            _ => {},
        }
        assert(node_has_extent(ops[0]));
    }
}

/// Every digit is one character.
proof fn lemma_digit_len(value: nat)
    ensures
        digit(value).len() == 1,
{
    reveal_strlit("0");
    reveal_strlit("1");
    reveal_strlit("2");
    reveal_strlit("3");
    reveal_strlit("4");
    reveal_strlit("5");
    reveal_strlit("6");
    reveal_strlit("7");
    reveal_strlit("8");
    reveal_strlit("9");
    reveal_strlit("a");
    reveal_strlit("b");
    reveal_strlit("c");
    reveal_strlit("d");
    reveal_strlit("e");
    reveal_strlit("f");
}

/// The digit for a value below sixteen.
fn digit_str(value: usize) -> (text: &'static str)
    requires
        value < 16,
    ensures
        text@ == digit(value as nat),
{
    if value == 0 {
        "0"
    } else if value == 1 {
        "1"
    } else if value == 2 {
        "2"
    } else if value == 3 {
        "3"
    } else if value == 4 {
        "4"
    } else if value == 5 {
        "5"
    } else if value == 6 {
        "6"
    } else if value == 7 {
        "7"
    } else if value == 8 {
        "8"
    } else if value == 9 {
        "9"
    } else if value == 10 {
        "a"
    } else if value == 11 {
        "b"
    } else if value == 12 {
        "c"
    } else if value == 13 {
        "d"
    } else if value == 14 {
        "e"
    } else {
        "f"
    }
}

/// Appends a number in decimal.
fn push_decimal(text: &mut String, value: usize)
    ensures
        final(text)@ == old(text)@ + decimal(value as nat),
    decreases value,
{
    if value >= 10 {
        push_decimal(text, value / 10);
    }
    text.append(digit_str(value % 10));
    proof {
        if value >= 10 {
            assert(final(text)@ =~= old(text)@ + (decimal((value / 10) as nat) + digit(
                (value % 10) as nat,
            )));
        }
    }
}

/// Appends a signed number in decimal.
fn push_signed(text: &mut String, value: isize)
    ensures
        final(text)@ == old(text)@ + signed_decimal(value as int),
{
    if value < 0 {
        text.append("-");
        let magnitude: usize = (-(value + 1)) as usize + 1;
        push_decimal(text, magnitude);
        proof {
            assert(final(text)@ =~= old(text)@ + ("-"@ + decimal((-value) as nat)));
        }
    } else {
        push_decimal(text, value as usize);
    }
}

/// Appends a number in hexadecimal and returns how many digits it took.
fn push_hexadecimal(text: &mut String, value: usize) -> (count: usize)
    ensures
        final(text)@ == old(text)@ + hexadecimal(value as nat),
        count == hexadecimal(value as nat).len(),
        1 <= count <= value || value == 0,
    decreases value,
{
    let mut count: usize = 0;
    if value >= 16 {
        count = push_hexadecimal(text, value / 16);
    }
    text.append(digit_str(value % 16));
    proof {
        lemma_digit_len((value % 16) as nat);
        if value >= 16 {
            assert(final(text)@ =~= old(text)@ + (hexadecimal((value / 16) as nat) + digit(
                (value % 16) as nat,
            )));
        }
    }
    count + 1
}

/// Appends a run of spaces.
fn push_spaces(text: &mut String, count: usize)
    ensures
        final(text)@ == old(text)@ + spaces(count as nat),
{
    let mut done: usize = 0;
    proof {
        assert(text@ =~= old(text)@ + spaces(0));
    }
    while done < count
        invariant
            done <= count,
            text@ == old(text)@ + spaces(done as nat),
        decreases count - done,
    {
        text.append(" ");
        proof {
            reveal_strlit(" ");
            assert(text@ =~= old(text)@ + spaces((done + 1) as nat));
        }
        done += 1;
    }
}

/// Appends the position of an instruction, padded to the column.
fn push_position(text: &mut String, op: &Op)
    requires
        op.span.end >= 1,
    ensures
        final(text)@ == old(text)@ + position_text(op@),
{
    proof {
        reveal_strlit("0x");
        reveal_strlit("..0x");
    }
    text.append("0x");
    let first = push_hexadecimal(text, op.span.start);
    text.append("..0x");
    let last = push_hexadecimal(text, op.span.end - 1);
    let ghost position = "0x"@ + hexadecimal(op.span.start as nat) + "..0x"@ + hexadecimal(
        (op.span.end - 1) as nat,
    );
    proof {
        assert(text@ =~= old(text)@ + position);
        assert(position.len() == 6 + first + last);
    }
    if first < POSITION_WIDTH && last < POSITION_WIDTH && 6 + first + last < POSITION_WIDTH {
        push_spaces(text, POSITION_WIDTH - (6 + first + last));
        proof {
            assert(text@ =~= old(text)@ + (position + spaces(
                (POSITION_WIDTH - position.len()) as nat,
            )));
        }
    }
}

/// Appends what an instruction does, as the rest of its line.
fn push_mnemonic(text: &mut String, op_type: &OpType)
    ensures
        final(text)@ == old(text)@ + mnemonic(op_type@),
{
    match op_type {
        OpType::IncPtr(value) => {
            text.append("INC_PTR ");
            push_decimal(text, *value);
            text.append("\n");
            proof {
                assert(text@ =~= old(text)@ + ("INC_PTR "@ + decimal(*value as nat) + "\n"@));
            }
        },
        OpType::DecPtr(value) => {
            text.append("DEC_PTR ");
            push_decimal(text, *value);
            text.append("\n");
            proof {
                assert(text@ =~= old(text)@ + ("DEC_PTR "@ + decimal(*value as nat) + "\n"@));
            }
        },
        OpType::Inc(value) => {
            text.append("INC ");
            push_decimal(text, *value as usize);
            text.append("\n");
            proof {
                assert(text@ =~= old(text)@ + ("INC "@ + decimal(*value as nat) + "\n"@));
            }
        },
        OpType::Dec(value) => {
            text.append("DEC ");
            push_decimal(text, *value as usize);
            text.append("\n");
            proof {
                assert(text@ =~= old(text)@ + ("DEC "@ + decimal(*value as nat) + "\n"@));
            }
        },
        OpType::SetCell(value) => {
            text.append("SET ");
            push_decimal(text, *value as usize);
            text.append("\n");
            proof {
                assert(text@ =~= old(text)@ + ("SET "@ + decimal(*value as nat) + "\n"@));
            }
        },
        OpType::Add(value, multi) => {
            text.append("ADD offset: ");
            push_signed(text, *value);
            text.append(" multiply: ");
            push_decimal(text, *multi as usize);
            text.append("\n");
            proof {
                assert(text@ =~= old(text)@ + ("ADD offset: "@ + signed_decimal(*value as int)
                    + " multiply: "@ + decimal(*multi as nat) + "\n"@));
            }
        },
        OpType::Sub(value, multi) => {
            text.append("SUB offset: ");
            push_signed(text, *value);
            text.append(" multiply: ");
            push_decimal(text, *multi as usize);
            text.append("\n");
            proof {
                assert(text@ =~= old(text)@ + ("SUB offset: "@ + signed_decimal(*value as int)
                    + " multiply: "@ + decimal(*multi as nat) + "\n"@));
            }
        },
        OpType::PutChar => {
            text.append("PUT\n");
        },
        OpType::GetChar => {
            text.append("GET\n");
        },
        OpType::DLoop(_) => {
            text.append("DLOOP\n");
        },
        OpType::ILoop(_, offset, step) => {
            text.append("ILOOP offset: ");
            push_signed(text, *offset);
            text.append(" step: ");
            push_decimal(text, *step as usize);
            text.append("\n");
            proof {
                assert(text@ =~= old(text)@ + ("ILOOP offset: "@ + signed_decimal(*offset as int)
                    + " step: "@ + decimal(*step as nat) + "\n"@));
            }
        },
        OpType::CLoop(_, offset, iterations) => {
            text.append("CLOOP offset: ");
            push_signed(text, *offset);
            text.append(" iterations: ");
            push_decimal(text, *iterations as usize);
            text.append("\n");
            proof {
                assert(text@ =~= old(text)@ + ("CLOOP offset: "@ + signed_decimal(*offset as int)
                    + " iterations: "@ + decimal(*iterations as nat) + "\n"@));
            }
        },
        OpType::TNz(_, offset) => {
            text.append("TNZ offset: ");
            push_signed(text, *offset);
            text.append(" \n");
            proof {
                assert(text@ =~= old(text)@ + ("TNZ offset: "@ + signed_decimal(*offset as int)
                    + " \n"@));
            }
        },
        OpType::SearchZero(step) => {
            text.append("S_ZERO ");
            push_signed(text, *step);
            text.append(" \n");
            proof {
                assert(text@ =~= old(text)@ + ("S_ZERO "@ + signed_decimal(*step as int) + " \n"@));
            }
        },
    }
}

impl Program {
    /// The listing of the program. Every instruction must cover at least one
    /// byte of the source.
    pub fn dump(&self) -> (text: String)
        requires
            has_extent(self@),
            op_count(self@) <= usize::MAX,
        ensures
            text@ == listing(self@, 0),
    {
        let mut text = String::new();
        self.dump_ops(&mut text, self.ops.as_slice(), 0);
        proof {
            assert(text@ =~= listing(self@, 0));
        }
        text
    }

    /// Appends the listing of a sequence at a depth.
    fn dump_ops(&self, text: &mut String, ops: &[Op], indent: usize)
        requires
            has_extent(nodes_of(ops@)),
            indent + op_count(nodes_of(ops@)) <= usize::MAX,
        ensures
            final(text)@ == old(text)@ + listing(nodes_of(ops@), indent as nat),
        decreases op_count(nodes_of(ops@)),
    {
        let ghost nodes = nodes_of(ops@);
        let mut i: usize = 0;
        proof {
            assert(nodes.skip(0) =~= nodes);
        }
        while i < ops.len()
            invariant
                i <= ops.len(),
                nodes == nodes_of(ops@),
                has_extent(nodes.skip(i as int)),
                indent + op_count(nodes) <= usize::MAX,
                text@ + listing(nodes.skip(i as int), indent as nat) == old(text)@ + listing(
                    nodes,
                    indent as nat,
                ),
            decreases ops.len() - i,
        {
            let ghost before = text@;
            let ghost rest = nodes.skip(i as int);
            let op = &ops[i];
            proof {
                assert(rest[0] == op@);
                assert(rest.skip(1) =~= nodes.skip(i + 1));
                assert(node_has_extent(rest[0]) && has_extent(rest.skip(1)));
                assert(op@.kind.body() matches Some(body) ==> has_extent(body) && op_count(body)
                    < node_op_count(op@));
                lemma_counts_index(nodes, i as int);
            }
            push_position(text, op);
            push_spaces_twice(text, indent);
            push_mnemonic(text, &op.op_type);
            let ghost line = position_text(op@) + spaces(2 * indent as nat) + mnemonic(op@.kind);
            proof {
                assert(text@ =~= before + line);
            }
            match &op.op_type {
                OpType::DLoop(children) => {
                    self.dump_ops(text, children.as_slice(), indent + 1);
                },
                OpType::ILoop(children, _, _) => {
                    self.dump_ops(text, children.as_slice(), indent + 1);
                },
                OpType::CLoop(children, _, _) => {
                    self.dump_ops(text, children.as_slice(), indent + 1);
                },
                OpType::TNz(children, _) => {
                    self.dump_ops(text, children.as_slice(), indent + 1);
                },
                _ => {},
            }
            proof {
                assert(text@ =~= before + node_listing(op@, indent as nat));
                assert(text@ + listing(nodes.skip(i + 1), indent as nat) =~= before + listing(
                    rest,
                    indent as nat,
                ));
            }
            i += 1;
        }
        proof {
            assert(text@ + listing(nodes.skip(i as int), indent as nat) =~= text@);
        }
    }
}

/// Appends two spaces for every level of depth.
fn push_spaces_twice(text: &mut String, indent: usize)
    ensures
        final(text)@ == old(text)@ + spaces(2 * indent as nat),
{
    let mut done: usize = 0;
    proof {
        assert(text@ =~= old(text)@ + spaces(0));
    }
    while done < indent
        invariant
            done <= indent,
            text@ == old(text)@ + spaces(2 * done as nat),
        decreases indent - done,
    {
        text.append("  ");
        proof {
            reveal_strlit("  ");
            assert(text@ =~= old(text)@ + spaces(2 * (done + 1) as nat));
        }
        done += 1;
    }
}

} // verus!
