use rust_9cc::cli;
use rust_9cc::codegen::gen;
use rust_9cc::parse::{program, Node, NodeKind};
use rust_9cc::result::{CodegenError, CompileError, ParseError, TokenizeError};
use rust_9cc::tokenize::tokenize;
use std::collections::HashMap;

fn num(val: i64) -> Node {
    Node::new_num(val)
}

fn var(offset: i64) -> Node {
    Node { kind: NodeKind::LVar, offset, ..Node::default() }
}

fn op(kind: NodeKind, lhs: Node, rhs: Node) -> Node {
    Node::new_op(kind, lhs, rhs)
}

fn compile(input: &str) -> Result<String, CompileError> {
    cli(vec!["rust_9cc".to_string(), input.to_string()])
}

const PROLOGUE: &str = ".intel_syntax noprefix\n.globl main\nmain:\n  push rbp\n  mov rbp, rsp\n  sub rsp, 208\n";
const EPILOGUE: &str = "  mov rsp, rbp\n  pop rbp\n  ret\n";

/// A number that stands in an instruction: it must fit 32 bits.
fn immediate(text: &str) -> Option<i64> {
    text.parse::<i32>().ok().map(i64::from)
}

/// Runs the assembly on a small model of the processor and returns the exit
/// status, the low byte of `rax` when `main` returns. `None` where an
/// instruction is not one of those that the compiler emits, a number does
/// not fit its instruction, or a division traps.
fn run(assembly: &str) -> Option<i64> {
    let mut memory: HashMap<i64, i64> = HashMap::new();
    let (mut rax, mut rdi, mut rdx, mut rsp, mut rbp): (i64, i64, i64, i64, i64) =
        (0, 0, 0, 1 << 20, 0);
    let mut flags = std::cmp::Ordering::Equal;
    let mut al = false;
    let mut returned = false;
    for line in assembly.lines() {
        if returned {
            return None;
        }
        match line {
            ".intel_syntax noprefix" | ".globl main" | "main:" => {}
            "  push rbp" => {
                rsp -= 8;
                memory.insert(rsp, rbp);
            }
            "  push rax" => {
                rsp -= 8;
                memory.insert(rsp, rax);
            }
            "  push rdi" => {
                rsp -= 8;
                memory.insert(rsp, rdi);
            }
            "  pop rax" => {
                rax = *memory.get(&rsp)?;
                rsp += 8;
            }
            "  pop rdi" => {
                rdi = *memory.get(&rsp)?;
                rsp += 8;
            }
            "  pop rbp" => {
                rbp = *memory.get(&rsp)?;
                rsp += 8;
            }
            "  mov rbp, rsp" => rbp = rsp,
            "  mov rsp, rbp" => rsp = rbp,
            "  mov rax, rbp" => rax = rbp,
            "  mov rax, [rax]" => rax = *memory.get(&rax).unwrap_or(&0),
            "  mov [rax], rdi" => {
                memory.insert(rax, rdi);
            }
            "  add rax, rdi" => rax = rax.wrapping_add(rdi),
            "  sub rax, rdi" => rax = rax.wrapping_sub(rdi),
            "  imul rax, rdi" => rax = rax.wrapping_mul(rdi),
            "  cqo" => rdx = if rax < 0 { -1 } else { 0 },
            "  idiv rdi" => {
                if rdx != (if rax < 0 { -1 } else { 0 }) {
                    return None;
                }
                let quotient = rax.checked_div(rdi)?;
                rdx = rax.checked_rem(rdi)?;
                rax = quotient;
            }
            "  cmp rax, rdi" => flags = rax.cmp(&rdi),
            "  sete al" => al = flags.is_eq(),
            "  setne al" => al = flags.is_ne(),
            "  setl al" => al = flags.is_lt(),
            "  setle al" => al = flags.is_le(),
            "  movzb rax, al" => rax = al as i64,
            "  ret" => returned = true,
            other => {
                if let Some(value) = other.strip_prefix("  push ") {
                    rsp -= 8;
                    memory.insert(rsp, immediate(value)?);
                } else if let Some(value) = other.strip_prefix("  sub rax, ") {
                    rax = rax.wrapping_sub(immediate(value)?);
                } else if let Some(value) = other.strip_prefix("  sub rsp, ") {
                    rsp = rsp.wrapping_sub(immediate(value)?);
                } else {
                    return None;
                }
            }
        }
    }
    if returned && rsp == (1 << 20) {
        Some(rax & 0xff)
    } else {
        None
    }
}

fn exit_status(input: &str) -> Option<i64> {
    run(&compile(input).unwrap())
}

#[test]
fn an_integer_is_pushed() {
    assert_eq!(gen(&num(42)), Ok("  push 42\n".to_string()));
    assert_eq!(gen(&num(0)), Ok("  push 0\n".to_string()));
    assert_eq!(gen(&num(10)), Ok("  push 10\n".to_string()));
    assert_eq!(gen(&num(-7)), Ok("  push -7\n".to_string()));
    assert_eq!(gen(&num(1234567890)), Ok("  push 1234567890\n".to_string()));
    assert_eq!(gen(&num(i64::MAX)), Ok("  push 9223372036854775807\n".to_string()));
    assert_eq!(gen(&num(i64::MIN)), Ok("  push -9223372036854775808\n".to_string()));
}

#[test]
fn a_variable_is_loaded_from_its_address() {
    assert_eq!(
        gen(&var(16)),
        Ok("  mov rax, rbp\n  sub rax, 16\n  push rax\n  pop rax\n  mov rax, [rax]\n  push rax\n"
            .to_string())
    );
}

#[test]
fn an_assignment_stores_and_keeps_the_value() {
    assert_eq!(
        gen(&op(NodeKind::Assign, var(8), num(3))),
        Ok("  mov rax, rbp\n  sub rax, 8\n  push rax\n  push 3\n  pop rdi\n  pop rax\n  mov [rax], rdi\n  push rdi\n"
            .to_string())
    );
}

#[test]
fn each_operator_has_its_instructions() {
    let cases = [
        (NodeKind::Add, "  add rax, rdi\n"),
        (NodeKind::Sub, "  sub rax, rdi\n"),
        (NodeKind::Mul, "  imul rax, rdi\n"),
        (NodeKind::Div, "  cqo\n  idiv rdi\n"),
        (NodeKind::Eq, "  cmp rax, rdi\n  sete al\n  movzb rax, al\n"),
        (NodeKind::Ne, "  cmp rax, rdi\n  setne al\n  movzb rax, al\n"),
        (NodeKind::Lt, "  cmp rax, rdi\n  setl al\n  movzb rax, al\n"),
        (NodeKind::Le, "  cmp rax, rdi\n  setle al\n  movzb rax, al\n"),
    ];
    for (kind, instructions) in cases {
        let expected =
            format!("  push 1\n  push 2\n  pop rdi\n  pop rax\n{}  push rax\n", instructions);
        assert_eq!(gen(&op(kind, num(1), num(2))), Ok(expected));
    }
}

#[test]
fn the_left_operand_comes_first() {
    let tree = op(NodeKind::Sub, op(NodeKind::Mul, num(1), num(2)), num(3));
    assert_eq!(
        gen(&tree),
        Ok("  push 1\n  push 2\n  pop rdi\n  pop rax\n  imul rax, rdi\n  push rax\n  push 3\n  pop rdi\n  pop rax\n  sub rax, rdi\n  push rax\n"
            .to_string())
    );
}

#[test]
fn the_target_of_an_assignment_must_be_a_variable() {
    assert_eq!(gen(&op(NodeKind::Assign, num(1), num(2))), Err(CodegenError::NotAnLvalue));
    assert_eq!(
        gen(&op(NodeKind::Assign, op(NodeKind::Add, var(8), num(1)), num(2))),
        Err(CodegenError::NotAnLvalue)
    );
    assert_eq!(
        gen(&op(NodeKind::Add, num(1), op(NodeKind::Assign, num(1), num(2)))),
        Err(CodegenError::NotAnLvalue)
    );
    assert_eq!(
        gen(&op(NodeKind::Assign, var(8), op(NodeKind::Assign, Node::default(), num(2)))),
        Err(CodegenError::NotAnLvalue)
    );
    assert_eq!(compile("1 = 2;"), Err(CompileError::Codegen(CodegenError::NotAnLvalue)));
    assert_eq!(compile("a; (a) = 2; 3 = a;").map(|_| ()), Err(CompileError::Codegen(CodegenError::NotAnLvalue)));
}

#[test]
fn an_assignment_must_have_both_operands() {
    let no_target = Node { kind: NodeKind::Assign, rhs: Some(Box::new(num(1))), ..Node::default() };
    assert_eq!(gen(&no_target), Err(CodegenError::MissingOperand));
    let no_value = Node { kind: NodeKind::Assign, lhs: Some(Box::new(var(8))), ..Node::default() };
    assert_eq!(gen(&no_value), Err(CodegenError::MissingOperand));
    let neither = Node { kind: NodeKind::Assign, ..Node::default() };
    assert_eq!(gen(&neither), Err(CodegenError::MissingOperand));
    let wrong_target =
        Node { kind: NodeKind::Assign, lhs: Some(Box::new(num(8))), ..Node::default() };
    assert_eq!(gen(&wrong_target), Err(CodegenError::NotAnLvalue));
}

#[test]
fn a_node_without_its_left_operand_has_no_code() {
    assert_eq!(gen(&Node::default()), Ok(String::new()));
    let only_right = Node { kind: NodeKind::Add, rhs: Some(Box::new(num(1))), ..Node::default() };
    assert_eq!(gen(&only_right), Ok(String::new()));
    let only_left = Node { kind: NodeKind::Add, lhs: Some(Box::new(num(1))), ..Node::default() };
    assert_eq!(gen(&only_left), Ok("  push 1\n".to_string()));
    let empty_with_both = Node {
        kind: NodeKind::Nil,
        lhs: Some(Box::new(num(1))),
        rhs: Some(Box::new(num(2))),
        ..Node::default()
    };
    assert_eq!(
        gen(&empty_with_both),
        Ok("  push 1\n  push 2\n  pop rdi\n  pop rax\n  push rax\n".to_string())
    );
}

#[test]
fn operands_of_a_leaf_are_passed_over() {
    let leaf = Node { lhs: Some(Box::new(num(1))), rhs: Some(Box::new(num(2))), ..num(5) };
    assert_eq!(gen(&leaf), Ok("  push 5\n".to_string()));
}

#[test]
fn a_program_is_wrapped_in_main() {
    assert_eq!(
        compile("3+7;"),
        Ok(format!(
            "{}  push 3\n  push 7\n  pop rdi\n  pop rax\n  add rax, rdi\n  push rax\n  pop rax\n{}",
            PROLOGUE, EPILOGUE
        ))
    );
    assert_eq!(compile(""), Ok(format!("{}{}", PROLOGUE, EPILOGUE)));
    assert_eq!(
        compile("1; 2;"),
        Ok(format!("{}  push 1\n  pop rax\n  push 2\n  pop rax\n{}", PROLOGUE, EPILOGUE))
    );
}

#[test]
fn the_program_is_the_code_of_its_statements() {
    let input = "a = 2 * 3; b = 3 + -2; a * b;";
    let mut tokens = tokenize(input.to_string()).unwrap();
    let mut expected = PROLOGUE.to_string();
    for node in program(&mut tokens).unwrap() {
        expected.push_str(&gen(&node).unwrap());
        expected.push_str("  pop rax\n");
    }
    expected.push_str(EPILOGUE);
    assert_eq!(compile(input), Ok(expected));
}

#[test]
fn the_command_line_holds_one_argument() {
    assert_eq!(cli(vec![]), Err(CompileError::WrongArgumentCount));
    assert_eq!(cli(vec!["rust_9cc".to_string()]), Err(CompileError::WrongArgumentCount));
    assert_eq!(
        cli(vec!["rust_9cc".to_string(), "1;".to_string(), "2;".to_string()]),
        Err(CompileError::WrongArgumentCount)
    );
}

#[test]
fn a_fault_of_any_stage_stops_the_compilation() {
    assert_eq!(
        compile("1 + %"),
        Err(CompileError::Tokenize(TokenizeError::InvalidSyntax("1 + %".to_string())))
    );
    assert_eq!(
        compile("18446744073709551616;"),
        Err(CompileError::Tokenize(TokenizeError::InvalidNumber(
            "18446744073709551616".to_string()
        )))
    );
    assert_eq!(compile("3+7"), Err(CompileError::Parse(ParseError::MissingSemicolon)));
    assert_eq!(compile("(3+7;"), Err(CompileError::Parse(ParseError::MissingCloseParen)));
    assert_eq!(
        compile("3+;"),
        Err(CompileError::Parse(ParseError::UnexpectedToken(";".to_string())))
    );
    assert_eq!(compile("3+"), Err(CompileError::Parse(ParseError::UnexpectedEnd)));
    assert_eq!(compile("3 = 7;"), Err(CompileError::Codegen(CodegenError::NotAnLvalue)));
}

#[test]
fn programs_exit_with_the_value_of_the_last_statement() {
    assert_eq!(exit_status("3+7;"), Some(10));
    assert_eq!(exit_status(" 3 + 9 - 9 ;"), Some(3));
    assert_eq!(exit_status("3*4+2;"), Some(14));
    assert_eq!(exit_status("-3*+5 + 20;"), Some(5));
    assert_eq!(exit_status("(1+2)*3;"), Some(9));
    assert_eq!(exit_status("1 == 1;"), Some(1));
    assert_eq!(exit_status("1 != 1;"), Some(0));
    assert_eq!(exit_status("1 < 2;"), Some(1));
    assert_eq!(exit_status("2 <= 2;"), Some(1));
    assert_eq!(exit_status("a = 2 * 3; b = 3 + -2; a * b;"), Some(6));
}

#[test]
fn more_programs_exit_with_the_value_of_the_last_statement() {
    assert_eq!(exit_status("3-1;"), Some(2));
    assert_eq!(exit_status("99 +0  - 83      + 3    ;"), Some(19));
    assert_eq!(exit_status("7 / 2;"), Some(3));
    assert_eq!(exit_status("-7 / 2 + 10;"), Some(7));
    assert_eq!(exit_status("2 > 1;"), Some(1));
    assert_eq!(exit_status("1 >= 2;"), Some(0));
    assert_eq!(exit_status("a = b = 5; a + b;"), Some(10));
    assert_eq!(exit_status("a = 1; a = a + 1; a = a * 10; a;"), Some(20));
    assert_eq!(exit_status("z = 300; z;"), Some(300 % 256));
    assert_eq!(exit_status("0 - 1;"), Some(255));
    assert_eq!(exit_status("foo = 4; bar = foo * foo; bar - foo;"), Some(12));
}

#[test]
fn negating_twice_and_parentheses_keep_the_exit_status() {
    for e in ["5", "3*4+2", "1 < 2", "0", "7 / 2 - 9", "(1 == 1) + 250"] {
        let plain = exit_status(&format!("{};", e));
        assert!(plain.is_some());
        assert_eq!(exit_status(&format!("-(-({}));", e)), plain);
        assert_eq!(exit_status(&format!("({});", e)), plain);
        assert_eq!(compile(&format!("({});", e)), compile(&format!("{};", e)));
    }
}

#[test]
fn a_division_by_zero_stops_the_program() {
    assert_eq!(exit_status("1 / 0;"), None);
    assert_eq!(exit_status("a = 0; 7 / a; 1;"), None);
    assert_eq!(exit_status("0 / 5;"), Some(0));
}

#[test]
fn an_integer_of_more_than_32_bits_has_code_that_no_instruction_takes() {
    assert_eq!(exit_status("2147483647;"), Some(255));
    assert!(compile("2147483648;").is_ok());
    assert_eq!(exit_status("2147483648;"), None);
}

#[test]
fn a_variable_that_was_never_assigned_holds_what_the_memory_held() {
    assert_eq!(exit_status("a;"), Some(0));
    assert_eq!(exit_status("a = a + 1; a;"), Some(1));
}

#[test]
fn all_lowercase_letters_have_cells_of_their_own() {
    let mut text = String::new();
    for (i, c) in ('a'..='z').enumerate() {
        text.push_str(&format!("{} = {}; ", c, i + 1));
    }
    for (i, c) in ('a'..='z').enumerate() {
        assert_eq!(exit_status(&format!("{}{};", text, c)), Some(i as i64 + 1));
    }
    assert_eq!(exit_status(&format!("{}a + z * 2 - m;", text)), Some(1 + 52 - 13));
}
