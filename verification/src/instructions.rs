//! The instructions of a tree and of a program, and that the assembly which
//! the code generator emits is their listing.

use vstd::prelude::*;

use crate::codegen::{code, lval_code, op_code};
use crate::grammar::lemma_program_offsets;
use crate::lexeme::lex;
use crate::machine::{is_immediate, lemma_listing_of_both, line, listing, Instr};
use crate::parse::{Node, NodeKind};
use crate::result::{CodegenError, CompileFault};
use crate::text::{int_text, nat_text};
use crate::tokenize::fresh;
use crate::{assembly, body_code, epilogue, prologue, trees};

verus! {

/// Whether every assignment in the tree has a local variable as its
/// target.
pub open spec fn assignable(node: Node) -> bool
    decreases node,
{
    &&& node.kind == NodeKind::Assign ==> (node.lhs matches Some(target) && target.kind
        == NodeKind::LVar)
    &&& node.lhs matches Some(left) ==> assignable(*left)
    &&& node.rhs matches Some(right) ==> assignable(*right)
}

/// Whether every integer of the tree can stand in an instruction.
pub open spec fn immediates_fit(node: Node) -> bool
    decreases node,
{
    &&& node.kind == NodeKind::Num ==> is_immediate(node.val)
    &&& node.lhs matches Some(left) ==> immediates_fit(*left)
    &&& node.rhs matches Some(right) ==> immediates_fit(*right)
}

/// The instructions that push the address of the local variable at
/// `offset`.
pub open spec fn address(offset: i64) -> Seq<Instr> {
    seq![Instr::MovRaxRbp, Instr::SubRax(offset), Instr::PushRax]
}

/// The instructions of a binary operator.
pub open spec fn operation(kind: NodeKind) -> Seq<Instr> {
    match kind {
        NodeKind::Add => seq![Instr::Add],
        NodeKind::Sub => seq![Instr::Sub],
        NodeKind::Mul => seq![Instr::Imul],
        NodeKind::Div => seq![Instr::Cqo, Instr::Idiv],
        NodeKind::Eq => seq![Instr::Cmp, Instr::Sete, Instr::Movzb],
        NodeKind::Ne => seq![Instr::Cmp, Instr::Setne, Instr::Movzb],
        NodeKind::Lt => seq![Instr::Cmp, Instr::Setl, Instr::Movzb],
        NodeKind::Le => seq![Instr::Cmp, Instr::Setle, Instr::Movzb],
        _ => Seq::empty(),
    }
}

/// The instructions of a well-formed tree.
pub open spec fn instrs(node: Node) -> Seq<Instr>
    decreases node,
{
    match node.kind {
        NodeKind::Num => seq![Instr::Push(node.val)],
        NodeKind::LVar => address(node.offset) + seq![Instr::PopRax, Instr::Load, Instr::PushRax],
        NodeKind::Assign => match (node.lhs, node.rhs) {
            (Some(target), Some(value)) => address(target.offset) + instrs(*value) + seq![
                Instr::PopRdi,
                Instr::PopRax,
                Instr::Store,
                Instr::PushRdi,
            ],
            _ => Seq::empty(),
        },
        _ => match (node.lhs, node.rhs) {
            (Some(left), Some(right)) => instrs(*left) + instrs(*right) + seq![
                Instr::PopRdi,
                Instr::PopRax,
            ] + operation(node.kind) + seq![Instr::PushRax],
            _ => Seq::empty(),
        },
    }
}

/// The instructions of a sequence of statements: the instructions of each
/// in turn, and behind each a `pop rax` that takes the statement's value
/// off the stack.
pub open spec fn body_instrs(nodes: Seq<Node>) -> Seq<Instr>
    decreases nodes.len(),
{
    if nodes.len() == 0 {
        Seq::empty()
    } else {
        body_instrs(nodes.drop_last()) + instrs(nodes.last()) + seq![Instr::PopRax]
    }
}

/// The instructions that set up the frame of `main`.
pub open spec fn entry_instrs() -> Seq<Instr> {
    seq![Instr::PushRbp, Instr::MovRbpRsp, Instr::SubRsp(208)]
}

/// The instructions that give up the frame of `main` and return.
pub open spec fn exit_instrs() -> Seq<Instr> {
    seq![Instr::MovRspRbp, Instr::PopRbp, Instr::Ret]
}

/// The instructions of a program.
pub open spec fn program_instrs(nodes: Seq<Node>) -> Seq<Instr> {
    entry_instrs() + body_instrs(nodes) + exit_instrs()
}

/// The lines that stand before the instructions of a program.
pub open spec fn header() -> Seq<char> {
    ".intel_syntax noprefix\n"@ + ".globl main\n"@ + "main:\n"@
}

/// The listing of a single instruction is its line.
pub proof fn lemma_listing_of_one(a: Instr)
    ensures
        listing(seq![a]) == line(a),
{
    reveal_with_fuel(listing, 2);
    assert(seq![a].skip(1) =~= Seq::<Instr>::empty());
    assert(listing(seq![a]) =~= line(a));
}

/// The listing of a few instructions is their lines.
pub proof fn lemma_listing_of_few(a: Instr, b: Instr, c: Instr, d: Instr)
    ensures
        listing(seq![a, b]) == line(a) + line(b),
        listing(seq![a, b, c]) == line(a) + line(b) + line(c),
        listing(seq![a, b, c, d]) == line(a) + line(b) + line(c) + line(d),
{
    lemma_listing_of_one(a);
    lemma_listing_of_one(b);
    lemma_listing_of_one(c);
    lemma_listing_of_one(d);
    assert(seq![a, b] =~= seq![a] + seq![b]);
    assert(seq![a, b, c] =~= seq![a, b] + seq![c]);
    assert(seq![a, b, c, d] =~= seq![a, b, c] + seq![d]);
    lemma_listing_of_both(seq![a], seq![b]);
    lemma_listing_of_both(seq![a, b], seq![c]);
    lemma_listing_of_both(seq![a, b, c], seq![d]);
}

/// The code that pushes a variable's address is the listing of the
/// instructions that do so.
pub proof fn lemma_address_listing(node: Node)
    requires
        node.kind == NodeKind::LVar,
    ensures
        lval_code(node) == Ok::<Seq<char>, CodegenError>(listing(address(node.offset))),
{
    lemma_listing_of_few(Instr::MovRaxRbp, Instr::SubRax(node.offset), Instr::PushRax, Instr::Ret);
    assert(lval_code(node)->Ok_0 =~= listing(address(node.offset)));
}

/// An operator's instructions are listed as the code generator writes
/// them.
pub proof fn lemma_operation_listing(kind: NodeKind)
    ensures
        op_code(kind) == listing(operation(kind)),
{
    match kind {
        NodeKind::Add => lemma_listing_of_one(Instr::Add),
        NodeKind::Sub => lemma_listing_of_one(Instr::Sub),
        NodeKind::Mul => lemma_listing_of_one(Instr::Imul),
        NodeKind::Div => lemma_listing_of_few(Instr::Cqo, Instr::Idiv, Instr::Ret, Instr::Ret),
        NodeKind::Eq => lemma_listing_of_few(Instr::Cmp, Instr::Sete, Instr::Movzb, Instr::Ret),
        NodeKind::Ne => lemma_listing_of_few(Instr::Cmp, Instr::Setne, Instr::Movzb, Instr::Ret),
        NodeKind::Lt => lemma_listing_of_few(Instr::Cmp, Instr::Setl, Instr::Movzb, Instr::Ret),
        NodeKind::Le => lemma_listing_of_few(Instr::Cmp, Instr::Setle, Instr::Movzb, Instr::Ret),
        _ => {},
    }
}

/// The listing of a variable's instructions.
proof fn lemma_lvar_listing(node: Node)
    requires
        node.kind == NodeKind::LVar,
    ensures
        code(node) == Ok::<Seq<char>, CodegenError>(listing(instrs(node))),
{
    let rest = seq![Instr::PopRax, Instr::Load, Instr::PushRax];
    lemma_address_listing(node);
    lemma_listing_of_few(Instr::PopRax, Instr::Load, Instr::PushRax, Instr::Ret);
    lemma_listing_of_both(address(node.offset), rest);
    assert(code(node)->Ok_0 =~= listing(address(node.offset)) + listing(rest));
}

/// The listing of an assignment's instructions, given that of its value.
proof fn lemma_assign_listing(node: Node, target: Node, value: Node)
    requires
        node.kind == NodeKind::Assign,
        node.lhs == Some(Box::new(target)),
        node.rhs == Some(Box::new(value)),
        target.kind == NodeKind::LVar,
        code(value) == Ok::<Seq<char>, CodegenError>(listing(instrs(value))),
    ensures
        code(node) == Ok::<Seq<char>, CodegenError>(listing(instrs(node))),
{
    let rest = seq![Instr::PopRdi, Instr::PopRax, Instr::Store, Instr::PushRdi];
    lemma_address_listing(target);
    lemma_listing_of_few(Instr::PopRdi, Instr::PopRax, Instr::Store, Instr::PushRdi);
    lemma_listing_of_both(address(target.offset), instrs(value));
    lemma_listing_of_both(address(target.offset) + instrs(value), rest);
    assert(code(node)->Ok_0 =~= listing(address(target.offset)) + listing(instrs(value)) + listing(
        rest,
    ));
}

/// The listing of the instructions of a node with two operands, given
/// those of the operands.
proof fn lemma_binary_listing(node: Node, left: Node, right: Node)
    requires
        node.kind != NodeKind::Assign,
        node.kind != NodeKind::Num,
        node.kind != NodeKind::LVar,
        node.lhs == Some(Box::new(left)),
        node.rhs == Some(Box::new(right)),
        code(left) == Ok::<Seq<char>, CodegenError>(listing(instrs(left))),
        code(right) == Ok::<Seq<char>, CodegenError>(listing(instrs(right))),
    ensures
        code(node) == Ok::<Seq<char>, CodegenError>(listing(instrs(node))),
{
    let pops = seq![Instr::PopRdi, Instr::PopRax];
    let push = seq![Instr::PushRax];
    lemma_operation_listing(node.kind);
    lemma_listing_of_few(Instr::PopRdi, Instr::PopRax, Instr::Ret, Instr::Ret);
    lemma_listing_of_one(Instr::PushRax);
    lemma_listing_of_both(instrs(left), instrs(right));
    lemma_listing_of_both(instrs(left) + instrs(right), pops);
    lemma_listing_of_both(instrs(left) + instrs(right) + pops, operation(node.kind));
    lemma_listing_of_both(instrs(left) + instrs(right) + pops + operation(node.kind), push);
    assert(code(node)->Ok_0 =~= listing(instrs(left)) + listing(instrs(right)) + listing(pops)
        + listing(operation(node.kind)) + listing(push));
}

/// The code of a well-formed tree is the listing of its instructions,
/// where every assignment has a local variable as its target; it is
/// refused where one has not.
pub proof fn lemma_code_is_listing(node: Node)
    requires
        node.well_formed(),
    ensures
        code(node) == (if assignable(node) {
            Ok::<Seq<char>, CodegenError>(listing(instrs(node)))
        } else {
            Err::<Seq<char>, CodegenError>(CodegenError::NotAnLvalue)
        }),
    decreases node,
{
    match node.kind {
        NodeKind::Num => {
            lemma_listing_of_one(Instr::Push(node.val));
            assert(assignable(node));
            assert(code(node)->Ok_0 =~= listing(instrs(node)));
        },
        NodeKind::LVar => {
            lemma_lvar_listing(node);
            assert(assignable(node));
        },
        NodeKind::Assign => {
            let target = *node.lhs->0;
            let value = *node.rhs->0;
            lemma_code_is_listing(value);
            if target.kind == NodeKind::LVar && assignable(value) {
                lemma_assign_listing(node, target, value);
                assert(target.well_formed());
                assert(assignable(target));
            }
        },
        NodeKind::Nil => {},
        _ => {
            let left = *node.lhs->0;
            let right = *node.rhs->0;
            lemma_code_is_listing(left);
            lemma_code_is_listing(right);
            if assignable(left) && assignable(right) {
                lemma_binary_listing(node, left, right);
            }
        },
    }
}

/// The code of a sequence of well-formed statements is the listing of
/// their instructions, where every assignment has a local variable as its
/// target; it is refused where one has not.
pub proof fn lemma_body_code_is_listing(nodes: Seq<Node>)
    requires
        forall|i: int| 0 <= i < nodes.len() ==> (#[trigger] nodes[i]).well_formed(),
    ensures
        body_code(nodes) == (if forall|i: int|
            0 <= i < nodes.len() ==> assignable(#[trigger] nodes[i]) {
            Ok::<Seq<char>, CodegenError>(listing(body_instrs(nodes)))
        } else {
            Err::<Seq<char>, CodegenError>(CodegenError::NotAnLvalue)
        }),
    decreases nodes.len(),
{
    if nodes.len() > 0 {
        let front = nodes.drop_last();
        let last = nodes.last();
        assert forall|i: int| 0 <= i < front.len() implies (#[trigger] front[i]).well_formed() by {
            assert(front[i] == nodes[i]);
        }
        lemma_body_code_is_listing(front);
        lemma_code_is_listing(last);
        let front_ok = forall|i: int| 0 <= i < front.len() ==> assignable(#[trigger] front[i]);
        let all_ok = forall|i: int| 0 <= i < nodes.len() ==> assignable(#[trigger] nodes[i]);
        if all_ok {
            assert forall|i: int| 0 <= i < front.len() implies assignable(#[trigger] front[i]) by {
                assert(front[i] == nodes[i]);
            }
            assert(assignable(nodes[nodes.len() - 1]));
            lemma_listing_of_one(Instr::PopRax);
            lemma_listing_of_both(body_instrs(front), instrs(last));
            lemma_listing_of_both(body_instrs(front) + instrs(last), seq![Instr::PopRax]);
        } else {
            if front_ok {
                assert forall|i: int| 0 <= i < nodes.len() - 1 implies assignable(
                    #[trigger] nodes[i],
                ) by {
                    assert(front[i] == nodes[i]);
                }
                assert(!assignable(last));
            }
        }
    } else {
        assert(listing(body_instrs(nodes)) =~= Seq::<char>::empty());
    }
}

/// The numeral of the size of the frame.
proof fn lemma_frame_size_text()
    ensures
        int_text(208) == "208"@,
{
    reveal_strlit("208");
    reveal_with_fuel(nat_text, 3);
    assert(int_text(208) =~= "208"@);
}

/// The text around the statements' code is the header and the listing of
/// the instructions that enter and leave `main`.
pub proof fn lemma_envelope_is_listing()
    ensures
        prologue() == header() + listing(entry_instrs()),
        epilogue() == listing(exit_instrs()),
{
    let r = Instr::Ret;
    lemma_listing_of_few(Instr::PushRbp, Instr::MovRbpRsp, Instr::SubRsp(208), r);
    lemma_listing_of_few(Instr::MovRspRbp, Instr::PopRbp, Instr::Ret, r);
    lemma_frame_size_text();
    reveal_strlit("  sub rsp, 208\n");
    reveal_strlit("  sub rsp, ");
    reveal_strlit("208");
    reveal_strlit("\n");
    assert("  sub rsp, 208\n"@ =~= "  sub rsp, "@ + "208"@ + "\n"@);
    assert(prologue() =~= header() + listing(entry_instrs()));
}

/// The assembly of a program is the header and the listing of the
/// program's instructions.
pub proof fn lemma_assembly_is_listing(input: Seq<char>)
    requires
        assembly(input) is Ok,
    ensures
        trees(input) matches Ok(nodes) && assembly(input) == Ok::<Seq<char>, CompileFault>(
            header() + listing(program_instrs(nodes)),
        ) && forall|i: int|
            0 <= i < nodes.len() ==> (#[trigger] nodes[i]).well_formed() && assignable(nodes[i]),
{
    let nodes = trees(input)->Ok_0;
    let stream = fresh(input, lex(input)->Ok_0);
    lemma_program_offsets(stream);
    lemma_body_code_is_listing(nodes);
    lemma_envelope_is_listing();
    lemma_listing_of_both(entry_instrs(), body_instrs(nodes));
    lemma_listing_of_both(entry_instrs() + body_instrs(nodes), exit_instrs());
    assert(assembly(input)->Ok_0 =~= header() + listing(program_instrs(nodes)));
}

} // verus!
