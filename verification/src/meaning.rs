//! What a program means, and that the emitted code computes it: the value
//! of a tree, and the run of the tree's instructions on the model of the
//! processor.

use vstd::prelude::*;

use crate::grammar::{lemma_offsets_within_more, lemma_program_offsets, parse_program};
use crate::instructions::{
    address, assignable, body_instrs, entry_instrs, exit_instrs, header, immediates_fit, instrs,
    lemma_assembly_is_listing, operation, program_instrs,
};
use crate::lexeme::lex;
use crate::machine::{
    division_faults, exit_status, is_immediate, lemma_run_both, lemma_run_few, lemma_run_one,
    listing, pushed, quotient, run, step, with_al, wrap, Instr, Machine,
};
use crate::parse::{Node, NodeKind};
use crate::result::CompileFault;
use crate::tokenize::fresh;
use crate::{assembly, trees};

verus! {

/// The local variables of a running program: the content of each, by the
/// variable's offset.
pub type Frame = Map<int, i64>;

/// The result of a binary operator on two values. Sums, differences and
/// products wrap round at 64 bits, a quotient is rounded towards zero, and
/// a comparison gives 1 where it holds and 0 where it does not. `None`
/// where a division faults, and for a kind that is no binary operator.
pub open spec fn apply(kind: NodeKind, a: i64, b: i64) -> Option<i64> {
    match kind {
        NodeKind::Add => Some(wrap(a + b)),
        NodeKind::Sub => Some(wrap(a - b)),
        NodeKind::Mul => Some(wrap(a * b)),
        NodeKind::Div => if division_faults(a, b) {
            None
        } else {
            Some(quotient(a as int, b as int) as i64)
        },
        NodeKind::Eq => Some(
            if a == b {
                1i64
            } else {
                0i64
            },
        ),
        NodeKind::Ne => Some(
            if a != b {
                1i64
            } else {
                0i64
            },
        ),
        NodeKind::Lt => Some(
            if a < b {
                1i64
            } else {
                0i64
            },
        ),
        NodeKind::Le => Some(
            if a <= b {
                1i64
            } else {
                0i64
            },
        ),
        _ => None,
    }
}

/// The value of a tree, and the local variables as its evaluation leaves
/// them.
///
/// The left operand is evaluated before the right one. An assignment has
/// the value that it stores. `None` where a division faults, and for a
/// tree that lacks an operand.
pub open spec fn eval(node: Node, frame: Frame) -> Option<(i64, Frame)>
    decreases node,
{
    match node.kind {
        NodeKind::Num => Some((node.val, frame)),
        NodeKind::LVar => Some((frame[node.offset as int], frame)),
        NodeKind::Assign => match (node.lhs, node.rhs) {
            (Some(target), Some(value)) => match eval(*value, frame) {
                Some((v, after)) => Some((v, after.insert(target.offset as int, v))),
                None => None,
            },
            _ => None,
        },
        _ => match (node.lhs, node.rhs) {
            (Some(left), Some(right)) => match eval(*left, frame) {
                Some((a, between)) => match eval(*right, between) {
                    Some((b, after)) => match apply(node.kind, a, b) {
                        Some(v) => Some((v, after)),
                        None => None,
                    },
                    None => None,
                },
                None => None,
            },
            _ => None,
        },
    }
}

/// The local variables of a machine: the contents of the 26 cells below
/// the base pointer, by their distance from it.
pub open spec fn frame_of(m: Machine) -> Frame {
    Map::new(|offset: int| 8 <= offset <= 208, |offset: int| m.memory[m.rbp - offset])
}

/// Whether a machine is ready for the code of an expression: the stack
/// pointer lies at or below the lowest local variable, and the base
/// pointer and the addresses of the local variables fit a register.
pub open spec fn ready(m: Machine) -> bool {
    &&& !m.returned
    &&& m.rsp <= m.rbp - 208
    &&& i64::MIN + 208 <= m.rbp <= i64::MAX
}

/// Whether `after` is `m` with the value `v` pushed and the local variables
/// as `frame` has them, and nothing else changed of what `m` held on the
/// stack and above it.
pub open spec fn leaves_value(after: Machine, m: Machine, v: i64, frame: Frame) -> bool {
    &&& !after.returned
    &&& after.rbp == m.rbp
    &&& after.rsp == m.rsp - 8
    &&& after.memory[after.rsp] == v
    &&& frame_of(after) == frame
    &&& forall|a: int|
        a >= m.rsp && !(m.rbp - 208 <= a <= m.rbp - 8) ==> #[trigger] after.memory[a]
            == m.memory[a]
}

/// A number of 64 bits wraps to itself.
pub proof fn lemma_wrap_in_range(x: int)
    requires
        i64::MIN <= x <= i64::MAX,
    ensures
        wrap(x) == x,
{
}

/// What the code of an integer does.
proof fn lemma_run_num(v: i64, m: Machine)
    requires
        ready(m),
        is_immediate(v),
    ensures
        run(seq![Instr::Push(v)], m) matches Some(after) && leaves_value(
            after,
            m,
            v,
            frame_of(m),
        ),
{
    lemma_run_one(Instr::Push(v), m);
    let after = pushed(m, v);
    assert(frame_of(after) =~= frame_of(m));
}

/// What the code that pushes a variable's address does.
proof fn lemma_run_address(offset: i64, m: Machine)
    requires
        ready(m),
        8 <= offset <= 208,
    ensures
        run(address(offset), m) matches Some(after) && after.memory == m.memory.insert(
            m.rsp - 8,
            (m.rbp - offset) as i64,
        ) && after.rsp == m.rsp - 8 && after.rbp == m.rbp && !after.returned,
{
    let r = Instr::Ret;
    lemma_run_few(Instr::MovRaxRbp, Instr::SubRax(offset), Instr::PushRax, r, r, r, m);
    lemma_wrap_in_range(m.rbp - offset);
    let m1 = Machine { rax: m.rbp as i64, ..m };
    assert(step(Instr::MovRaxRbp, m) == Some(m1));
    let m2 = Machine { rax: (m.rbp - offset) as i64, flags: None, ..m1 };
    assert(step(Instr::SubRax(offset), m1) == Some(m2));
    assert(step(Instr::PushRax, m2) == Some(pushed(m2, m2.rax)));
}

/// What the code of a local variable does.
proof fn lemma_run_lvar(offset: i64, m: Machine)
    requires
        ready(m),
        8 <= offset <= 208,
    ensures
        run(address(offset) + seq![Instr::PopRax, Instr::Load, Instr::PushRax], m) matches Some(
            after,
        ) && leaves_value(after, m, m.memory[m.rbp - offset], frame_of(m)),
{
    let r = Instr::Ret;
    let rest = seq![Instr::PopRax, Instr::Load, Instr::PushRax];
    lemma_run_address(offset, m);
    lemma_run_both(address(offset), rest, m);
    let m3 = run(address(offset), m)->0;
    lemma_run_few(Instr::PopRax, Instr::Load, Instr::PushRax, r, r, r, m3);
    let m4 = Machine { rax: m3.memory[m3.rsp], rsp: m3.rsp + 8, ..m3 };
    assert(step(Instr::PopRax, m3) == Some(m4));
    assert(m4.rax == m.rbp - offset);
    let m5 = Machine { rax: m4.memory[m4.rax as int], ..m4 };
    assert(step(Instr::Load, m4) == Some(m5));
    assert(m5.rax == m.memory[m.rbp - offset]);
    let m6 = pushed(m5, m5.rax);
    assert(step(Instr::PushRax, m5) == Some(m6));
    assert(frame_of(m6) =~= frame_of(m));
}

/// What the instructions that end an assignment do: the value on top of
/// the stack is stored at the address below it, and stays on the stack in
/// the place of the address.
proof fn lemma_run_store(m: Machine)
    requires
        !m.returned,
    ensures
        run(seq![Instr::PopRdi, Instr::PopRax, Instr::Store, Instr::PushRdi], m) matches Some(
            after,
        ) && after.memory == m.memory.insert(m.memory[m.rsp + 8] as int, m.memory[m.rsp]).insert(
            m.rsp + 8,
            m.memory[m.rsp],
        ) && after.rsp == m.rsp + 8 && after.rbp == m.rbp && !after.returned,
{
    let r = Instr::Ret;
    lemma_run_few(Instr::PopRdi, Instr::PopRax, Instr::Store, Instr::PushRdi, r, r, m);
    let m1 = Machine { rdi: m.memory[m.rsp], rsp: m.rsp + 8, ..m };
    assert(step(Instr::PopRdi, m) == Some(m1));
    let m2 = Machine { rax: m1.memory[m1.rsp], rsp: m1.rsp + 8, ..m1 };
    assert(step(Instr::PopRax, m1) == Some(m2));
    let m3 = Machine { memory: m2.memory.insert(m2.rax as int, m2.rdi), ..m2 };
    assert(step(Instr::Store, m2) == Some(m3));
    assert(step(Instr::PushRdi, m3) == Some(pushed(m3, m3.rdi)));
}

/// The two values on top of the stack, popped into `rdi` and `rax`.
pub open spec fn popped_two(m: Machine) -> Machine {
    Machine { rdi: m.memory[m.rsp], rax: m.memory[m.rsp + 8], rsp: m.rsp + 16, ..m }
}

/// What the two pops before an operator's instructions do.
proof fn lemma_run_pops(m: Machine)
    requires
        !m.returned,
    ensures
        run(seq![Instr::PopRdi, Instr::PopRax], m) == Some(popped_two(m)),
{
    let r = Instr::Ret;
    lemma_run_few(Instr::PopRdi, Instr::PopRax, r, r, r, r, m);
    let m1 = Machine { rdi: m.memory[m.rsp], rsp: m.rsp + 8, ..m };
    assert(step(Instr::PopRdi, m) == Some(m1));
}

/// Setting the low byte of a number of 64 bits to 0 or 1 leaves a number
/// of 64 bits, of which that is the low byte.
proof fn lemma_low_byte(x: i64, bit: int)
    requires
        0 <= bit <= 1,
    ensures
        i64::MIN <= x - (x as int) % 256 + bit <= i64::MAX,
        (x - (x as int) % 256 + bit) % 256 == bit,
{
}

/// What a comparison's instructions do: they leave 1 in `rax` where the
/// comparison holds, and 0 where it does not.
proof fn lemma_run_comparison(set: Instr, holds: bool, m: Machine)
    requires
        !m.returned,
        ({
            let compared = Machine { flags: Some((m.rax < m.rdi, m.rax == m.rdi)), ..m };
            step(set, compared) == Some(with_al(compared, holds))
        }),
    ensures
        run(seq![Instr::Cmp, set, Instr::Movzb], m) matches Some(after) && after.rax == (if holds {
            1i64
        } else {
            0i64
        }) && after.memory == m.memory && after.rsp == m.rsp && after.rbp == m.rbp
            && !after.returned,
{
    let r = Instr::Ret;
    let compared = Machine { flags: Some((m.rax < m.rdi, m.rax == m.rdi)), ..m };
    lemma_run_few(Instr::Cmp, set, Instr::Movzb, r, r, r, m);
    assert(step(Instr::Cmp, m) == Some(compared));
    lemma_low_byte(m.rax, if holds { 1int } else { 0int });
    let bit_set = with_al(compared, holds);
    assert(step(Instr::Movzb, bit_set) == Some(
        Machine { rax: ((bit_set.rax as int) % 256) as i64, ..bit_set },
    ));
}

/// What the instructions of a division do: they leave the quotient in
/// `rax`, or the processor faults.
proof fn lemma_run_division(m: Machine)
    requires
        !m.returned,
    ensures
        match apply(NodeKind::Div, m.rax, m.rdi) {
            Some(v) => run(seq![Instr::Cqo, Instr::Idiv], m) matches Some(after) && after.rax == v
                && after.memory == m.memory && after.rsp == m.rsp && after.rbp == m.rbp
                && !after.returned,
            None => run(seq![Instr::Cqo, Instr::Idiv], m) is None,
        },
{
    let r = Instr::Ret;
    lemma_run_few(Instr::Cqo, Instr::Idiv, r, r, r, r, m);
    let m1 = Machine {
        rdx: if m.rax < 0 {
            -1i64
        } else {
            0i64
        },
        ..m
    };
    assert(step(Instr::Cqo, m) == Some(m1));
}

/// What an operator's instructions do: they leave the operator's result
/// in `rax`, or the processor faults where the operator has none. The
/// stack, the base pointer and the memory stay as they are.
proof fn lemma_run_operation(kind: NodeKind, m: Machine)
    requires
        !m.returned,
        kind != NodeKind::Assign,
        kind != NodeKind::Num,
        kind != NodeKind::LVar,
        kind != NodeKind::Nil,
    ensures
        match apply(kind, m.rax, m.rdi) {
            Some(v) => run(operation(kind), m) matches Some(after) && after.rax == v
                && after.memory == m.memory && after.rsp == m.rsp && after.rbp == m.rbp
                && !after.returned,
            None => run(operation(kind), m) is None,
        },
{
    match kind {
        NodeKind::Add => {
            lemma_run_one(Instr::Add, m);
        },
        NodeKind::Sub => {
            lemma_run_one(Instr::Sub, m);
        },
        NodeKind::Mul => {
            lemma_run_one(Instr::Imul, m);
        },
        NodeKind::Div => {
            lemma_run_division(m);
        },
        NodeKind::Eq => {
            lemma_run_comparison(Instr::Sete, m.rax == m.rdi, m);
        },
        NodeKind::Ne => {
            lemma_run_comparison(Instr::Setne, m.rax != m.rdi, m);
        },
        NodeKind::Lt => {
            lemma_run_comparison(Instr::Setl, m.rax < m.rdi, m);
        },
        NodeKind::Le => {
            lemma_run_comparison(Instr::Setle, m.rax <= m.rdi, m);
        },
        _ => {},
    }
}

/// What the instructions of a binary operator do, with the pops before
/// them and the push behind them: the two values on top of the stack give
/// way to the operator's result, or the processor faults where the
/// operator has none.
proof fn lemma_run_operator(kind: NodeKind, m: Machine)
    requires
        !m.returned,
        kind != NodeKind::Assign,
        kind != NodeKind::Num,
        kind != NodeKind::LVar,
        kind != NodeKind::Nil,
    ensures
        ({
            let code = seq![Instr::PopRdi, Instr::PopRax] + operation(kind) + seq![Instr::PushRax];
            match apply(kind, m.memory[m.rsp + 8], m.memory[m.rsp]) {
                Some(v) => run(code, m) matches Some(after) && after.memory == m.memory.insert(
                    m.rsp + 8,
                    v,
                ) && after.rsp == m.rsp + 8 && after.rbp == m.rbp && !after.returned,
                None => run(code, m) is None,
            }
        }),
{
    let pops = seq![Instr::PopRdi, Instr::PopRax];
    let push = seq![Instr::PushRax];
    lemma_run_pops(m);
    let m2 = popped_two(m);
    lemma_run_operation(kind, m2);
    lemma_run_both(pops, operation(kind), m);
    lemma_run_both(pops + operation(kind), push, m);
    if let Some(m3) = run(operation(kind), m2) {
        lemma_run_one(Instr::PushRax, m3);
    }
}

/// Whether the instructions of a tree, run from `m`, do what the tree
/// means: where the tree has a value, they push it, leave the local
/// variables as the evaluation does, and change nothing else of what the
/// stack held; where the tree has none, the processor faults.
pub open spec fn computes(node: Node, m: Machine) -> bool {
    match eval(node, frame_of(m)) {
        Some((v, frame)) => run(instrs(node), m) matches Some(after) && leaves_value(
            after,
            m,
            v,
            frame,
        ),
        None => run(instrs(node), m) is None,
    }
}

/// The code of an assignment, once the code of its value is known to
/// compute the value.
proof fn lemma_assign_computes(node: Node, target: Node, value: Node, m: Machine)
    requires
        node.kind == NodeKind::Assign,
        node.lhs == Some(Box::new(target)),
        node.rhs == Some(Box::new(value)),
        8 <= target.offset <= 208,
        ready(m),
        forall|before: Machine| ready(before) ==> #[trigger] computes(value, before),
    ensures
        computes(node, m),
{
    let tail = seq![Instr::PopRdi, Instr::PopRax, Instr::Store, Instr::PushRdi];
    let offset = target.offset;
    lemma_run_address(offset, m);
    let m1 = run(address(offset), m)->0;
    assert(frame_of(m1) =~= frame_of(m));
    assert(ready(m1));
    lemma_run_both(address(offset), instrs(value), m);
    lemma_run_both(address(offset) + instrs(value), tail, m);
    assert(computes(value, m1));
    if let Some((v, frame)) = eval(value, frame_of(m1)) {
        let m2 = run(instrs(value), m1)->0;
        assert(m2.memory[m.rsp - 8] == m1.memory[m.rsp - 8]);
        lemma_run_store(m2);
        let after = run(tail, m2)->0;
        assert(frame_of(after) =~= frame.insert(offset as int, v)) by {
            assert forall|o: int| 8 <= o <= 208 implies #[trigger] frame_of(after)[o]
                == frame.insert(offset as int, v)[o] by {
                if o != offset {
                    assert(frame_of(m2)[o] == frame[o]);
                }
            }
        }
        assert forall|a: int| a >= m.rsp && !(m.rbp - 208 <= a <= m.rbp - 8) implies #[trigger]
            after.memory[a] == m.memory[a] by {
            assert(m2.memory[a] == m1.memory[a]);
        }
    }
}

/// The code of a node with two operands, once the code of each operand is
/// known to compute the operand's value.
proof fn lemma_binary_computes(node: Node, left: Node, right: Node, m: Machine)
    requires
        node.kind != NodeKind::Assign,
        node.kind != NodeKind::Num,
        node.kind != NodeKind::LVar,
        node.kind != NodeKind::Nil,
        node.lhs == Some(Box::new(left)),
        node.rhs == Some(Box::new(right)),
        ready(m),
        forall|before: Machine| ready(before) ==> #[trigger] computes(left, before),
        forall|before: Machine| ready(before) ==> #[trigger] computes(right, before),
    ensures
        computes(node, m),
{
    let operands = instrs(left) + instrs(right);
    let rest = seq![Instr::PopRdi, Instr::PopRax] + operation(node.kind) + seq![Instr::PushRax];
    assert(instrs(node) =~= operands + rest);
    lemma_run_both(instrs(left), instrs(right), m);
    lemma_run_both(operands, rest, m);
    assert(computes(left, m));
    if let Some((a, between)) = eval(left, frame_of(m)) {
        let m1 = run(instrs(left), m)->0;
        assert(ready(m1));
        assert(computes(right, m1));
        if let Some((b, frame)) = eval(right, between) {
            let m2 = run(instrs(right), m1)->0;
            assert(m2.memory[m.rsp - 8] == m1.memory[m.rsp - 8]);
            lemma_run_operator(node.kind, m2);
            if let Some(v) = apply(node.kind, a, b) {
                let after = run(rest, m2)->0;
                assert(frame_of(after) =~= frame) by {
                    assert forall|o: int| 8 <= o <= 208 implies #[trigger] frame_of(after)[o]
                        == frame[o] by {
                        assert(frame_of(m2)[o] == frame[o]);
                    }
                }
                assert forall|x: int|
                    x >= m.rsp && !(m.rbp - 208 <= x <= m.rbp - 8) implies #[trigger]
                    after.memory[x] == m.memory[x] by {
                    assert(m2.memory[x] == m1.memory[x]);
                }
            }
        }
    }
}

/// The emitted code computes the value of the tree.
///
/// Where the tree has a value, the instructions of the tree push it, leave
/// the local variables as the evaluation does, and change nothing else of
/// what the stack held. Where the tree has none, for a division that
/// faults, the processor faults. This holds of a well-formed tree whose
/// assignments have local variables as targets and whose local variables
/// are among the first 26, so that they lie in the frame.
pub proof fn lemma_code_computes_value(node: Node, m: Machine)
    requires
        runnable(node),
        ready(m),
    ensures
        computes(node, m),
    decreases node,
{
    match node.kind {
        NodeKind::Num => {
            lemma_run_num(node.val, m);
        },
        NodeKind::LVar => {
            lemma_run_lvar(node.offset, m);
        },
        NodeKind::Assign => {
            let target = *node.lhs->0;
            let value = *node.rhs->0;
            assert(target.offsets_within(26));
            assert forall|before: Machine| ready(before) implies #[trigger] computes(
                value,
                before,
            ) by {
                lemma_code_computes_value(value, before);
            }
            lemma_assign_computes(node, target, value, m);
        },
        NodeKind::Nil => {},
        _ => {
            let left = *node.lhs->0;
            let right = *node.rhs->0;
            assert forall|before: Machine| ready(before) implies #[trigger] computes(
                left,
                before,
            ) by {
                lemma_code_computes_value(left, before);
            }
            assert forall|before: Machine| ready(before) implies #[trigger] computes(
                right,
                before,
            ) by {
                lemma_code_computes_value(right, before);
            }
            lemma_binary_computes(node, left, right, m);
        },
    }
}

/// Whether the code of a tree runs as the tree means: the tree is well
/// formed, its assignments have local variables as targets, its local
/// variables are among the first 26, so that they lie in the frame, and
/// its integers can stand in an instruction.
pub open spec fn runnable(node: Node) -> bool {
    node.well_formed() && assignable(node) && node.offsets_within(26) && immediates_fit(node)
}

/// Whether the code of every tree of the sequence runs as the tree means.
pub open spec fn compilable(nodes: Seq<Node>) -> bool {
    forall|i: int| 0 <= i < nodes.len() ==> runnable(#[trigger] nodes[i])
}

/// The local variables as a sequence of statements leaves them, each
/// statement working on what the one before it left. `None` where a
/// division faults.
pub open spec fn effect(nodes: Seq<Node>, frame: Frame) -> Option<Frame>
    decreases nodes.len(),
{
    if nodes.len() == 0 {
        Some(frame)
    } else {
        match effect(nodes.drop_last(), frame) {
            Some(before) => match eval(nodes.last(), before) {
                Some((v, after)) => Some(after),
                None => None,
            },
            None => None,
        }
    }
}

/// The value of the last of a sequence of statements. `None` where a
/// division faults.
pub open spec fn last_value(nodes: Seq<Node>, frame: Frame) -> Option<i64>
    recommends
        nodes.len() > 0,
{
    match effect(nodes.drop_last(), frame) {
        Some(before) => match eval(nodes.last(), before) {
            Some((v, after)) => Some(v),
            None => None,
        },
        None => None,
    }
}

/// Whether `after` is `m` with the local variables as `frame` has them,
/// and nothing else changed of what `m` held on the stack and above it.
pub open spec fn settled(after: Machine, m: Machine, frame: Frame) -> bool {
    &&& !after.returned
    &&& after.rbp == m.rbp
    &&& after.rsp == m.rsp
    &&& frame_of(after) == frame
    &&& forall|a: int|
        a >= m.rsp && !(m.rbp - 208 <= a <= m.rbp - 8) ==> #[trigger] after.memory[a]
            == m.memory[a]
}

/// The code of a statement leaves the statement's value in `rax` and the
/// stack as it found it.
proof fn lemma_statement_computes(node: Node, m: Machine)
    requires
        runnable(node),
        ready(m),
    ensures
        match eval(node, frame_of(m)) {
            Some((v, frame)) => run(instrs(node) + seq![Instr::PopRax], m) matches Some(after)
                && settled(after, m, frame) && after.rax == v,
            None => run(instrs(node) + seq![Instr::PopRax], m) is None,
        },
{
    lemma_code_computes_value(node, m);
    lemma_run_both(instrs(node), seq![Instr::PopRax], m);
    if let Some((v, frame)) = eval(node, frame_of(m)) {
        let m1 = run(instrs(node), m)->0;
        lemma_run_one(Instr::PopRax, m1);
        let after = Machine { rax: m1.memory[m1.rsp], rsp: m1.rsp + 8, ..m1 };
        assert(frame_of(after) =~= frame_of(m1));
    }
}

/// The code of a sequence of statements leaves the local variables as the
/// statements do, the value of the last statement in `rax`, and the stack
/// as it found it; or the processor faults where a division does.
pub proof fn lemma_body_computes(nodes: Seq<Node>, m: Machine)
    requires
        compilable(nodes),
        ready(m),
    ensures
        match effect(nodes, frame_of(m)) {
            Some(frame) => run(body_instrs(nodes), m) matches Some(after) && settled(
                after,
                m,
                frame,
            ) && (nodes.len() > 0 ==> Some(after.rax) == last_value(nodes, frame_of(m))),
            None => run(body_instrs(nodes), m) is None,
        },
    decreases nodes.len(),
{
    if nodes.len() > 0 {
        let front = nodes.drop_last();
        let last = nodes.last();
        let code = instrs(last) + seq![Instr::PopRax];
        assert(body_instrs(nodes) =~= body_instrs(front) + code);
        assert(compilable(front)) by {
            assert forall|i: int| 0 <= i < front.len() implies runnable(#[trigger] front[i]) by {
                assert(front[i] == nodes[i]);
            }
        }
        lemma_body_computes(front, m);
        lemma_run_both(body_instrs(front), code, m);
        if let Some(before) = effect(front, frame_of(m)) {
            let m1 = run(body_instrs(front), m)->0;
            assert(ready(m1));
            lemma_statement_computes(last, m1);
            if let Some((v, frame)) = eval(last, before) {
                let after = run(code, m1)->0;
                assert forall|a: int|
                    a >= m.rsp && !(m.rbp - 208 <= a <= m.rbp - 8) implies #[trigger]
                    after.memory[a] == m.memory[a] by {
                    assert(m1.memory[a] == m.memory[a]);
                }
            }
        }
    }
}

/// Whether a machine is in a state in which `main` can be entered: the
/// stack pointer and the base pointer hold addresses that fit a register,
/// with room for the frame below the stack pointer.
pub open spec fn at_entry(m: Machine) -> bool {
    &&& !m.returned
    &&& i64::MIN <= m.rbp <= i64::MAX
    &&& i64::MIN + 216 <= m.rsp <= i64::MAX
}

/// The machine as the first three instructions of `main` leave it: the
/// caller's base pointer pushed, the base pointer at the top of the stack,
/// and 208 bytes below it set aside for the local variables.
pub open spec fn entered(m: Machine) -> Machine {
    Machine {
        rbp: m.rsp - 8,
        rsp: m.rsp - 216,
        memory: m.memory.insert(m.rsp - 8, m.rbp as i64),
        flags: None,
        ..m
    }
}

/// The program returns the value of its last statement.
///
/// The instructions of a program, run from the entry of `main`, end with
/// `ret`, with the value of the last statement in `rax`, and with the
/// stack pointer and the base pointer as the caller expects them. The exit
/// status is that value modulo 256. Where a division faults, the
/// processor faults. The local variables hold whatever the memory held
/// when `main` was entered.
pub proof fn lemma_program_returns_last_value(nodes: Seq<Node>, m: Machine)
    requires
        nodes.len() > 0,
        compilable(nodes),
        at_entry(m),
    ensures
        match last_value(nodes, frame_of(entered(m))) {
            Some(v) => run(program_instrs(nodes), m) matches Some(after) && after.returned
                && after.rax == v && exit_status(after) == (v as int) % 256 && after.rbp == m.rbp
                && after.rsp == m.rsp + 8,
            None => run(program_instrs(nodes), m) is None,
        },
{
    let r = Instr::Ret;
    let begun = entered(m);
    lemma_run_few(Instr::PushRbp, Instr::MovRbpRsp, Instr::SubRsp(208), r, r, r, m);
    let m1 = pushed(m, m.rbp as i64);
    assert(step(Instr::PushRbp, m) == Some(m1));
    let m2 = Machine { rbp: m1.rsp, ..m1 };
    assert(step(Instr::MovRbpRsp, m1) == Some(m2));
    assert(step(Instr::SubRsp(208), m2) == Some(begun));
    assert(run(entry_instrs(), m) == Some(begun));
    assert(ready(begun));
    lemma_body_computes(nodes, begun);
    lemma_run_both(entry_instrs(), body_instrs(nodes), m);
    lemma_run_both(entry_instrs() + body_instrs(nodes), exit_instrs(), m);
    if let Some(frame) = effect(nodes, frame_of(begun)) {
        let done = run(body_instrs(nodes), begun)->0;
        assert(done.memory[begun.rbp] == begun.memory[begun.rbp]);
        lemma_run_few(Instr::MovRspRbp, Instr::PopRbp, Instr::Ret, r, r, r, done);
        let m3 = Machine { rsp: done.rbp, ..done };
        assert(step(Instr::MovRspRbp, done) == Some(m3));
        let m4 = Machine { rbp: m3.memory[m3.rsp] as int, rsp: m3.rsp + 8, ..m3 };
        assert(step(Instr::PopRbp, m3) == Some(m4));
    }
}

/// The exit status of a compiled program.
///
/// Where a text with at least one statement has an assembly, the assembly
/// is the listing of instructions that, run from the entry of `main`,
/// return with an exit status that is the value of the last statement
/// modulo 256, or fault where a division does. This holds of a text with
/// at most 26 local variables, which lie in the frame, and with no integer
/// too large to stand in an instruction.
pub proof fn lemma_exit_status_is_last_value(input: Seq<char>, m: Machine)
    requires
        assembly(input) is Ok,
        trees(input)->Ok_0.len() > 0,
        parse_program(fresh(input, lex(input)->Ok_0)).rest.lvars.len() <= 26,
        forall|i: int|
            0 <= i < trees(input)->Ok_0.len() ==> immediates_fit(#[trigger] trees(input)->Ok_0[i]),
        at_entry(m),
    ensures
        ({
            let nodes = trees(input)->Ok_0;
            let code = program_instrs(nodes);
            &&& assembly(input) == Ok::<Seq<char>, CompileFault>(header() + listing(code))
            &&& match last_value(nodes, frame_of(entered(m))) {
                Some(v) => run(code, m) matches Some(after) && after.returned && exit_status(after)
                    == (v as int) % 256,
                None => run(code, m) is None,
            }
        }),
{
    let nodes = trees(input)->Ok_0;
    let stream = fresh(input, lex(input)->Ok_0);
    let table = parse_program(stream).rest.lvars;
    lemma_assembly_is_listing(input);
    lemma_program_offsets(stream);
    assert forall|i: int| 0 <= i < nodes.len() implies runnable(#[trigger] nodes[i]) by {
        lemma_offsets_within_more(nodes[i], table.len(), 26);
    }
    lemma_program_returns_last_value(nodes, m);
}

/// Negating a number of 64 bits twice gives the number.
proof fn lemma_wrap_negated_twice(v: i64)
    ensures
        wrap(0 - wrap(0 - v)) == v,
{
}

/// Negating twice keeps the value: `-(-e)` has the value of `e`, and leaves
/// the local variables as `e` does.
pub proof fn lemma_negating_twice_keeps_value(e: Node, frame: Frame)
    ensures
        eval(e.negated().negated(), frame) == eval(e, frame),
{
    reveal_with_fuel(eval, 3);
    if let Some((v, after)) = eval(e, frame) {
        lemma_wrap_negated_twice(v);
        assert(eval(e.negated(), frame) == Some((wrap(0 - v), after)));
    }
}

/// The negation of a tree whose code runs as the tree means is such a
/// tree too.
pub proof fn lemma_negated_is_runnable(e: Node)
    requires
        runnable(e),
    ensures
        runnable(e.negated()),
{
    let zero = Node::num(0);
    assert(zero.well_formed() && assignable(zero) && zero.offsets_within(26) && immediates_fit(
        zero,
    ));
}

} // verus!
