//! A model of the processor, as far as the compiler uses it: the
//! instructions that the code generator emits, how they are written, and
//! what each of them does to the registers and the memory.
//!
//! The model knows the registers `rax`, `rdi`, `rdx`, `rsp` and `rbp`, the
//! outcome of the last comparison, and the memory in cells of 8 bytes. The
//! emitted code reaches memory only at addresses that differ from the base
//! pointer by a multiple of 8, so no two cells that it uses overlap.
//! Addresses are integers, and the stack has no end.

use vstd::prelude::*;

use crate::text::int_text;

verus! {

/// One instruction.
pub enum Instr {
    /// `push` of a number.
    Push(i64),
    /// `push rax`
    PushRax,
    /// `push rdi`
    PushRdi,
    /// `push rbp`
    PushRbp,
    /// `pop rax`
    PopRax,
    /// `pop rdi`
    PopRdi,
    /// `pop rbp`
    PopRbp,
    /// `mov rax, rbp`
    MovRaxRbp,
    /// `mov rbp, rsp`
    MovRbpRsp,
    /// `mov rsp, rbp`
    MovRspRbp,
    /// `sub rax,` and a number.
    SubRax(i64),
    /// `sub rsp,` and a number.
    SubRsp(i64),
    /// `mov rax, [rax]`
    Load,
    /// `mov [rax], rdi`
    Store,
    /// `add rax, rdi`
    Add,
    /// `sub rax, rdi`
    Sub,
    /// `imul rax, rdi`
    Imul,
    /// `cqo`
    Cqo,
    /// `idiv rdi`
    Idiv,
    /// `cmp rax, rdi`
    Cmp,
    /// `sete al`
    Sete,
    /// `setne al`
    Setne,
    /// `setl al`
    Setl,
    /// `setle al`
    Setle,
    /// `movzb rax, al`
    Movzb,
    /// `ret`
    Ret,
}

/// The line of assembly that is the instruction.
pub open spec fn line(instr: Instr) -> Seq<char> {
    match instr {
        Instr::Push(v) => "  push "@ + int_text(v as int) + "\n"@,
        Instr::PushRax => "  push rax\n"@,
        Instr::PushRdi => "  push rdi\n"@,
        Instr::PushRbp => "  push rbp\n"@,
        Instr::PopRax => "  pop rax\n"@,
        Instr::PopRdi => "  pop rdi\n"@,
        Instr::PopRbp => "  pop rbp\n"@,
        Instr::MovRaxRbp => "  mov rax, rbp\n"@,
        Instr::MovRbpRsp => "  mov rbp, rsp\n"@,
        Instr::MovRspRbp => "  mov rsp, rbp\n"@,
        Instr::SubRax(n) => "  sub rax, "@ + int_text(n as int) + "\n"@,
        Instr::SubRsp(n) => "  sub rsp, "@ + int_text(n as int) + "\n"@,
        Instr::Load => "  mov rax, [rax]\n"@,
        Instr::Store => "  mov [rax], rdi\n"@,
        Instr::Add => "  add rax, rdi\n"@,
        Instr::Sub => "  sub rax, rdi\n"@,
        Instr::Imul => "  imul rax, rdi\n"@,
        Instr::Cqo => "  cqo\n"@,
        Instr::Idiv => "  idiv rdi\n"@,
        Instr::Cmp => "  cmp rax, rdi\n"@,
        Instr::Sete => "  sete al\n"@,
        Instr::Setne => "  setne al\n"@,
        Instr::Setl => "  setl al\n"@,
        Instr::Setle => "  setle al\n"@,
        Instr::Movzb => "  movzb rax, al\n"@,
        Instr::Ret => "  ret\n"@,
    }
}

/// The lines of a sequence of instructions, one after the other.
pub open spec fn listing(instrs: Seq<Instr>) -> Seq<char>
    decreases instrs.len(),
{
    if instrs.len() == 0 {
        Seq::empty()
    } else {
        line(instrs[0]) + listing(instrs.skip(1))
    }
}

/// The listing of instructions put together is the listing of the ones,
/// then the listing of the others.
pub proof fn lemma_listing_of_both(first: Seq<Instr>, second: Seq<Instr>)
    ensures
        listing(first + second) == listing(first) + listing(second),
    decreases first.len(),
{
    if first.len() == 0 {
        assert(first + second =~= second);
        assert(listing(first) + listing(second) =~= listing(second));
    } else {
        assert((first + second).skip(1) =~= first.skip(1) + second);
        lemma_listing_of_both(first.skip(1), second);
        assert(line(first[0]) + (listing(first.skip(1)) + listing(second)) =~= (line(first[0])
            + listing(first.skip(1))) + listing(second));
    }
}

/// The state of the processor.
pub struct Machine {
    pub rax: i64,
    pub rdi: i64,
    pub rdx: i64,
    /// The stack pointer: the address of the top of the stack, which grows
    /// towards lower addresses.
    pub rsp: int,
    /// The base pointer.
    pub rbp: int,
    /// What the last comparison found of its first operand: whether it was
    /// less than the second, and whether it was equal to it. `None` after an
    /// instruction that leaves the flags in a state of its own.
    pub flags: Option<(bool, bool)>,
    /// The memory in cells of 8 bytes, by address.
    pub memory: Map<int, i64>,
    /// Whether `ret` has been executed.
    pub returned: bool,
}

/// The number of 64 bits in two's complement that is congruent to `x`.
pub open spec fn wrap(x: int) -> i64 {
    let low = x % 0x1_0000_0000_0000_0000;
    if low >= 0x8000_0000_0000_0000 {
        (low - 0x1_0000_0000_0000_0000) as i64
    } else {
        low as i64
    }
}

/// The quotient of `a` by `b`, rounded towards zero.
pub open spec fn quotient(a: int, b: int) -> int
    recommends
        b != 0,
{
    if a >= 0 && b > 0 {
        a / b
    } else if a >= 0 {
        -(a / (-b))
    } else if b > 0 {
        -((-a) / b)
    } else {
        (-a) / (-b)
    }
}

/// Whether `idiv` faults on the dividend `a` and the divisor `b`: on a zero
/// divisor, and on the one quotient that does not fit 64 bits.
pub open spec fn division_faults(a: i64, b: i64) -> bool {
    b == 0 || (a == i64::MIN && b == -1)
}

/// Whether a number can stand in an instruction: the processor takes
/// numbers of 32 bits there, and extends them with their sign.
pub open spec fn is_immediate(v: i64) -> bool {
    -0x8000_0000 <= v <= 0x7fff_ffff
}

/// Whether an address can be held in a register.
pub open spec fn fits_register(address: int) -> bool {
    i64::MIN <= address <= i64::MAX
}

/// The state after a push of `v`.
pub open spec fn pushed(m: Machine, v: i64) -> Machine {
    Machine { rsp: m.rsp - 8, memory: m.memory.insert(m.rsp - 8, v), ..m }
}

/// The state after `al`, the low byte of `rax`, is set to 1 or 0.
pub open spec fn with_al(m: Machine, bit: bool) -> Machine {
    Machine {
        rax: (m.rax - (m.rax as int) % 256 + (if bit {
            1int
        } else {
            0int
        })) as i64,
        ..m
    }
}

/// What one instruction makes of a state. `None` where the processor
/// faults, or the model does not say what happens: after `ret`, on a
/// number that cannot stand in an instruction, on a division that faults
/// or does not follow `cqo`, on flags that no comparison set, and on an
/// address that no register holds.
pub open spec fn step(instr: Instr, m: Machine) -> Option<Machine> {
    if m.returned {
        None
    } else {
        match instr {
            Instr::Push(v) => if is_immediate(v) {
                Some(pushed(m, v))
            } else {
                None
            },
            Instr::PushRax => Some(pushed(m, m.rax)),
            Instr::PushRdi => Some(pushed(m, m.rdi)),
            Instr::PushRbp => if fits_register(m.rbp) {
                Some(pushed(m, m.rbp as i64))
            } else {
                None
            },
            Instr::PopRax => Some(Machine { rax: m.memory[m.rsp], rsp: m.rsp + 8, ..m }),
            Instr::PopRdi => Some(Machine { rdi: m.memory[m.rsp], rsp: m.rsp + 8, ..m }),
            Instr::PopRbp => Some(Machine { rbp: m.memory[m.rsp] as int, rsp: m.rsp + 8, ..m }),
            Instr::MovRaxRbp => if fits_register(m.rbp) {
                Some(Machine { rax: m.rbp as i64, ..m })
            } else {
                None
            },
            Instr::MovRbpRsp => Some(Machine { rbp: m.rsp, ..m }),
            Instr::MovRspRbp => Some(Machine { rsp: m.rbp, ..m }),
            Instr::SubRax(n) => if is_immediate(n) {
                Some(Machine { rax: wrap(m.rax - n), flags: None, ..m })
            } else {
                None
            },
            Instr::SubRsp(n) => if is_immediate(n) {
                Some(Machine { rsp: m.rsp - n, flags: None, ..m })
            } else {
                None
            },
            Instr::Load => Some(Machine { rax: m.memory[m.rax as int], ..m }),
            Instr::Store => Some(Machine { memory: m.memory.insert(m.rax as int, m.rdi), ..m }),
            Instr::Add => Some(Machine { rax: wrap(m.rax + m.rdi), flags: None, ..m }),
            Instr::Sub => Some(Machine { rax: wrap(m.rax - m.rdi), flags: None, ..m }),
            Instr::Imul => Some(Machine { rax: wrap(m.rax * m.rdi), flags: None, ..m }),
            Instr::Cqo => Some(
                Machine {
                    rdx: if m.rax < 0 {
                        -1i64
                    } else {
                        0i64
                    },
                    ..m
                },
            ),
            Instr::Idiv => if (m.rdx != 0 && m.rdx != -1) || (m.rdx == -1) != (m.rax < 0)
                || division_faults(m.rax, m.rdi) {
                None
            } else {
                let q = quotient(m.rax as int, m.rdi as int);
                Some(
                    Machine {
                        rax: q as i64,
                        rdx: (m.rax - q * m.rdi) as i64,
                        flags: None,
                        ..m
                    },
                )
            },
            Instr::Cmp => Some(Machine { flags: Some((m.rax < m.rdi, m.rax == m.rdi)), ..m }),
            Instr::Sete => match m.flags {
                Some((less, equal)) => Some(with_al(m, equal)),
                None => None,
            },
            Instr::Setne => match m.flags {
                Some((less, equal)) => Some(with_al(m, !equal)),
                None => None,
            },
            Instr::Setl => match m.flags {
                Some((less, equal)) => Some(with_al(m, less)),
                None => None,
            },
            Instr::Setle => match m.flags {
                Some((less, equal)) => Some(with_al(m, less || equal)),
                None => None,
            },
            Instr::Movzb => Some(Machine { rax: ((m.rax as int) % 256) as i64, ..m }),
            Instr::Ret => Some(Machine { rsp: m.rsp + 8, returned: true, ..m }),
        }
    }
}

/// What a sequence of instructions makes of a state, each instruction
/// working on what the one before it left.
pub open spec fn run(instrs: Seq<Instr>, m: Machine) -> Option<Machine>
    decreases instrs.len(),
{
    if instrs.len() == 0 {
        Some(m)
    } else {
        match step(instrs[0], m) {
            Some(next) => run(instrs.skip(1), next),
            None => None,
        }
    }
}

/// Running instructions put together is running the ones, then the others
/// on what they left.
pub proof fn lemma_run_both(first: Seq<Instr>, second: Seq<Instr>, m: Machine)
    ensures
        run(first + second, m) == match run(first, m) {
            Some(between) => run(second, between),
            None => None,
        },
    decreases first.len(),
{
    if first.len() == 0 {
        assert(first + second =~= second);
    } else {
        assert((first + second).skip(1) =~= first.skip(1) + second);
        if let Some(next) = step(first[0], m) {
            lemma_run_both(first.skip(1), second, next);
        }
    }
}

/// What an instruction makes of the outcome of those before it.
pub open spec fn then(before: Option<Machine>, instr: Instr) -> Option<Machine> {
    match before {
        Some(m) => step(instr, m),
        None => None,
    }
}

/// Running one instruction is taking its step.
pub proof fn lemma_run_one(a: Instr, m: Machine)
    ensures
        run(seq![a], m) == step(a, m),
{
    reveal_with_fuel(run, 2);
    assert(seq![a].skip(1).len() == 0);
}

/// Running instructions and one more is taking that one's step on what the
/// others left.
pub proof fn lemma_run_more(instrs: Seq<Instr>, a: Instr, m: Machine)
    ensures
        run(instrs.push(a), m) == then(run(instrs, m), a),
{
    assert(instrs.push(a) =~= instrs + seq![a]);
    lemma_run_both(instrs, seq![a], m);
    if let Some(between) = run(instrs, m) {
        lemma_run_one(a, between);
    }
}

/// Running up to six instructions is taking their steps in turn.
pub proof fn lemma_run_few(a: Instr, b: Instr, c: Instr, d: Instr, e: Instr, f: Instr, m: Machine)
    ensures
        run(seq![a, b], m) == then(step(a, m), b),
        run(seq![a, b, c], m) == then(then(step(a, m), b), c),
        run(seq![a, b, c, d], m) == then(then(then(step(a, m), b), c), d),
        run(seq![a, b, c, d, e], m) == then(then(then(then(step(a, m), b), c), d), e),
        run(seq![a, b, c, d, e, f], m) == then(
            then(then(then(then(step(a, m), b), c), d), e),
            f,
        ),
{
    lemma_run_one(a, m);
    assert(seq![a, b] =~= seq![a].push(b));
    lemma_run_more(seq![a], b, m);
    assert(seq![a, b, c] =~= seq![a, b].push(c));
    lemma_run_more(seq![a, b], c, m);
    assert(seq![a, b, c, d] =~= seq![a, b, c].push(d));
    lemma_run_more(seq![a, b, c], d, m);
    assert(seq![a, b, c, d, e] =~= seq![a, b, c, d].push(e));
    lemma_run_more(seq![a, b, c, d], e, m);
    assert(seq![a, b, c, d, e, f] =~= seq![a, b, c, d, e].push(f));
    lemma_run_more(seq![a, b, c, d, e], f, m);
}

/// The exit status of a program whose `main` has returned: the low byte of
/// `rax`.
pub open spec fn exit_status(m: Machine) -> int {
    (m.rax as int) % 256
}

} // verus!
