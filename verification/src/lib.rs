//! A small single-pass compiler: source text to tokens, tokens to statement
//! trees, statement trees to x86-64 assembly in Intel syntax.

use vstd::prelude::*;

pub mod codegen;
pub mod grammar;
pub mod instructions;
pub mod laws;
pub mod lexeme;
pub mod machine;
pub mod meaning;
pub mod parse;
pub mod result;
pub mod text;
pub mod tokenize;

use crate::codegen::{code, gen};
use crate::grammar::parse_program;
use crate::lexeme::lex;
use crate::parse::{program, Node};
use crate::result::{CodegenError, CompileError, CompileFault, ParseFault};
use crate::tokenize::{fresh, tokenize};

verus! {

/// What stands before the statements' code: the header of `main`, and a
/// frame of 208 bytes, room for 26 local variables of 8 bytes.
pub open spec fn prologue() -> Seq<char> {
    ".intel_syntax noprefix\n"@ + ".globl main\n"@ + "main:\n"@ + "  push rbp\n"@
        + "  mov rbp, rsp\n"@ + "  sub rsp, 208\n"@
}

/// What stands behind the statements' code: the frame is given up and
/// `main` returns, with the last statement's value in `rax`.
pub open spec fn epilogue() -> Seq<char> {
    "  mov rsp, rbp\n"@ + "  pop rbp\n"@ + "  ret\n"@
}

/// The code of a sequence of statements: the code of each in turn, and
/// behind each a `pop rax` that takes the statement's value off the stack.
/// The first statement that has no code decides the fault.
pub open spec fn body_code(nodes: Seq<Node>) -> Result<Seq<char>, CodegenError>
    decreases nodes.len(),
{
    if nodes.len() == 0 {
        Ok(Seq::empty())
    } else {
        match body_code(nodes.drop_last()) {
            Err(e) => Err(e),
            Ok(before) => match code(nodes.last()) {
                Err(e) => Err(e),
                Ok(last) => Ok(before + last + "  pop rax\n"@),
            },
        }
    }
}

/// The trees of the program `input`, one per statement, or the fault that
/// the tokeniser or the parser meets.
pub open spec fn trees(input: Seq<char>) -> Result<Seq<Node>, CompileFault> {
    match lex(input) {
        Err(e) => Err(CompileFault::Tokenize(e)),
        Ok(tokens) => match parse_program(fresh(input, tokens)).result {
            Err(e) => Err(CompileFault::Parse(e)),
            Ok(nodes) => Ok(nodes),
        },
    }
}

/// The assembly of the program `input`, or the first fault that one of the
/// three stages meets.
pub open spec fn assembly(input: Seq<char>) -> Result<Seq<char>, CompileFault> {
    match trees(input) {
        Err(e) => Err(e),
        Ok(nodes) => match body_code(nodes) {
            Err(e) => Err(CompileFault::Codegen(e)),
            Ok(body) => Ok(prologue() + body + epilogue()),
        },
    }
}

/// A compilation's result with its texts as character sequences.
pub open spec fn compiled(r: Result<String, CompileError>) -> Result<Seq<char>, CompileFault> {
    match r {
        Ok(text) => Ok(text@),
        Err(e) => Err(e@),
    }
}

/// Compiles the program given on a command line.
///
/// `args` is the command line: the program's name, then the source text as
/// the one argument. The result is the assembly of a function `main` that
/// returns the value of the last statement.
pub fn cli(args: Vec<String>) -> (r: Result<String, CompileError>)
    ensures
        args@.len() != 2 ==> compiled(r) == Err::<Seq<char>, CompileFault>(
            CompileFault::WrongArgumentCount,
        ),
        args@.len() == 2 ==> compiled(r) == assembly(args@[1]@),
{
    if args.len() != 2 {
        return Err(CompileError::WrongArgumentCount);
    }
    let mut tokens = match tokenize(args[1].clone()) {
        Ok(tokens) => tokens,
        Err(e) => {
            return Err(CompileError::Tokenize(e));
        },
    };
    let mut result = String::new();

    result.append(".intel_syntax noprefix\n");
    result.append(".globl main\n");
    result.append("main:\n");

    result.append("  push rbp\n");
    result.append("  mov rbp, rsp\n");
    result.append("  sub rsp, 208\n");
    assert(result@ =~= prologue());

    let nodes = match program(&mut tokens) {
        Ok(nodes) => nodes,
        Err(e) => {
            return Err(CompileError::Parse(e));
        },
    };
    let mut i: usize = 0;
    while i < nodes.len()
        invariant
            i <= nodes.len(),
            args@.len() == 2,
            lex(args@[1]@) matches Ok(found) && parse_program(fresh(args@[1]@, found)).result
                == Ok::<Seq<Node>, ParseFault>(nodes@),
            body_code(nodes@.take(i as int)) matches Ok(body) && result@ == prologue() + body,
        decreases nodes.len() - i,
    {
        let ghost before = body_code(nodes@.take(i as int))->Ok_0;
        proof {
            assert(nodes@.take(i + 1).drop_last() =~= nodes@.take(i as int));
            assert(nodes@.take(i + 1).last() == nodes@[i as int]);
        }
        let asm_code = match gen(&nodes[i]) {
            Ok(text) => text,
            Err(e) => {
                proof {
                    lemma_body_code_fails(nodes@, i + 1);
                }
                return Err(CompileError::Codegen(e));
            },
        };
        result.append(asm_code.as_str());
        result.append("  pop rax\n");
        assert(result@ =~= prologue() + (before + asm_code@ + "  pop rax\n"@));
        i = i + 1;
    }
    assert(nodes@.take(i as int) =~= nodes@);
    let ghost body = body_code(nodes@)->Ok_0;

    result.append("  mov rsp, rbp\n");
    result.append("  pop rbp\n");
    result.append("  ret\n");
    assert(result@ =~= prologue() + body + epilogue());
    Ok(result)
}

/// A fault in the code of the first `k` statements is the fault of the
/// whole sequence.
pub proof fn lemma_body_code_fails(nodes: Seq<Node>, k: int)
    requires
        0 <= k <= nodes.len(),
        body_code(nodes.take(k)) is Err,
    ensures
        body_code(nodes) == body_code(nodes.take(k)),
    decreases nodes.len() - k,
{
    if k < nodes.len() {
        assert(nodes.take(k + 1).drop_last() =~= nodes.take(k));
        lemma_body_code_fails(nodes, k + 1);
    } else {
        assert(nodes.take(k) =~= nodes);
    }
}

} // verus!
