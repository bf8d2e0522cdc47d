//! Code generation: from a statement's tree to assembly for a stack
//! machine. The code of an expression leaves the expression's value on top
//! of the stack.

use vstd::prelude::*;

use crate::parse::{Node, NodeKind};
use crate::result::CodegenError;
use crate::text::{int_text, push_int};

verus! {

/// An emitted text as a character sequence.
pub open spec fn emitted(r: Result<String, CodegenError>) -> Result<Seq<char>, CodegenError> {
    match r {
        Ok(text) => Ok(text@),
        Err(e) => Err(e),
    }
}

/// The code that pushes the address of a local variable: the base pointer
/// less the variable's offset. Any other node is refused.
pub open spec fn lval_code(node: Node) -> Result<Seq<char>, CodegenError> {
    match node.kind {
        NodeKind::LVar => Ok(
            "  mov rax, rbp\n"@ + "  sub rax, "@ + int_text(node.offset as int) + "\n"@
                + "  push rax\n"@,
        ),
        _ => Err(CodegenError::NotAnLvalue),
    }
}

/// The instructions that compute a binary operator from `rax` and `rdi`
/// into `rax`. A comparison leaves 0 or 1.
pub open spec fn op_code(kind: NodeKind) -> Seq<char> {
    match kind {
        NodeKind::Add => "  add rax, rdi\n"@,
        NodeKind::Sub => "  sub rax, rdi\n"@,
        NodeKind::Mul => "  imul rax, rdi\n"@,
        NodeKind::Div => "  cqo\n"@ + "  idiv rdi\n"@,
        NodeKind::Eq => "  cmp rax, rdi\n"@ + "  sete al\n"@ + "  movzb rax, al\n"@,
        NodeKind::Ne => "  cmp rax, rdi\n"@ + "  setne al\n"@ + "  movzb rax, al\n"@,
        NodeKind::Lt => "  cmp rax, rdi\n"@ + "  setl al\n"@ + "  movzb rax, al\n"@,
        NodeKind::Le => "  cmp rax, rdi\n"@ + "  setle al\n"@ + "  movzb rax, al\n"@,
        _ => Seq::empty(),
    }
}

/// The code of the tree `node`.
///
/// An integer is pushed. A local variable's address is pushed and replaced
/// by the value found there. An assignment pushes the address of its
/// target, which must be a local variable, then the code of its value
/// follows; the value is stored at the address and stays on the stack. Any
/// other node has the code of its left operand, then of its right operand,
/// then the operator's instructions on the two values popped, and pushes
/// the result; where the left operand is missing it has no code at all, and
/// where only the right one is missing it has the code of the left alone.
pub open spec fn code(node: Node) -> Result<Seq<char>, CodegenError>
    decreases node,
{
    match node.kind {
        NodeKind::Num => Ok("  push "@ + int_text(node.val as int) + "\n"@),
        NodeKind::LVar => match lval_code(node) {
            Ok(address) => Ok(
                address + "  pop rax\n"@ + "  mov rax, [rax]\n"@ + "  push rax\n"@,
            ),
            Err(e) => Err(e),
        },
        NodeKind::Assign => match node.lhs {
            None => Err(CodegenError::MissingOperand),
            Some(target) => match lval_code(*target) {
                Err(e) => Err(e),
                Ok(address) => match node.rhs {
                    None => Err(CodegenError::MissingOperand),
                    Some(value) => match code(*value) {
                        Err(e) => Err(e),
                        Ok(computed) => Ok(
                            address + computed + "  pop rdi\n"@ + "  pop rax\n"@
                                + "  mov [rax], rdi\n"@ + "  push rdi\n"@,
                        ),
                    },
                },
            },
        },
        _ => match node.lhs {
            None => Ok(Seq::empty()),
            Some(left) => match code(*left) {
                Err(e) => Err(e),
                Ok(first) => match node.rhs {
                    None => Ok(first),
                    Some(right) => match code(*right) {
                        Err(e) => Err(e),
                        Ok(second) => Ok(
                            first + second + "  pop rdi\n"@ + "  pop rax\n"@ + op_code(node.kind)
                                + "  push rax\n"@,
                        ),
                    },
                },
            },
        },
    }
}

/// Emits the code that pushes the address of the local variable `node`.
/// Any other node is refused.
fn gen_lval(node: &Node) -> (r: Result<String, CodegenError>)
    ensures
        emitted(r) == lval_code(*node),
{
    let mut result = String::new();
    match node.kind {
        NodeKind::LVar => {},
        _ => {
            return Err(CodegenError::NotAnLvalue);
        },
    }
    result.append("  mov rax, rbp\n");
    result.append("  sub rax, ");
    push_int(&mut result, node.offset);
    result.append("\n");
    result.append("  push rax\n");
    assert(result@ =~= lval_code(*node)->Ok_0);
    Ok(result)
}

/// Emits the code of the tree `node`.
///
/// The call fails where an assignment in the tree lacks an operand or has a
/// target that is no local variable.
pub fn gen(node: &Node) -> (r: Result<String, CodegenError>)
    ensures
        emitted(r) == code(*node),
    decreases node,
{
    let mut result = String::new();
    match node.kind {
        NodeKind::Num => {
            result.append("  push ");
            push_int(&mut result, node.val);
            result.append("\n");
            assert(result@ =~= code(*node)->Ok_0);
            return Ok(result);
        },
        NodeKind::LVar => {
            let address = gen_lval(node)?;
            result.append(address.as_str());
            result.append("  pop rax\n");
            result.append("  mov rax, [rax]\n");
            result.append("  push rax\n");
            assert(result@ =~= code(*node)->Ok_0);
            return Ok(result);
        },
        NodeKind::Assign => {
            let target = match &node.lhs {
                Some(v) => v,
                None => {
                    return Err(CodegenError::MissingOperand);
                },
            };
            let address = gen_lval(target)?;
            result.append(address.as_str());
            let value = match &node.rhs {
                Some(v) => v,
                None => {
                    return Err(CodegenError::MissingOperand);
                },
            };
            let computed = gen(value)?;
            result.append(computed.as_str());
            result.append("  pop rdi\n");
            result.append("  pop rax\n");
            result.append("  mov [rax], rdi\n");
            result.append("  push rdi\n");
            assert(result@ =~= code(*node)->Ok_0);
            return Ok(result);
        },
        _ => {},
    }
    let left = match &node.lhs {
        Some(v) => v,
        None => {
            assert(result@ =~= code(*node)->Ok_0);
            return Ok(result);
        },
    };
    let first = gen(left)?;
    result.append(first.as_str());
    let right = match &node.rhs {
        Some(v) => v,
        None => {
            assert(result@ =~= code(*node)->Ok_0);
            return Ok(result);
        },
    };
    let second = gen(right)?;
    result.append(second.as_str());

    result.append("  pop rdi\n");
    result.append("  pop rax\n");

    match node.kind {
        NodeKind::Add => result.append("  add rax, rdi\n"),
        NodeKind::Sub => result.append("  sub rax, rdi\n"),
        NodeKind::Mul => result.append("  imul rax, rdi\n"),
        NodeKind::Div => {
            result.append("  cqo\n");
            result.append("  idiv rdi\n");
        },
        NodeKind::Eq => {
            result.append("  cmp rax, rdi\n");
            result.append("  sete al\n");
            result.append("  movzb rax, al\n");
        },
        NodeKind::Ne => {
            result.append("  cmp rax, rdi\n");
            result.append("  setne al\n");
            result.append("  movzb rax, al\n");
        },
        NodeKind::Lt => {
            result.append("  cmp rax, rdi\n");
            result.append("  setl al\n");
            result.append("  movzb rax, al\n");
        },
        NodeKind::Le => {
            result.append("  cmp rax, rdi\n");
            result.append("  setle al\n");
            result.append("  movzb rax, al\n");
        },
        _ => {},
    }

    result.append("  push rax\n");
    assert(result@ =~= code(*node)->Ok_0);
    Ok(result)
}

} // verus!
