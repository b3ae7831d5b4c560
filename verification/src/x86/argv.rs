//! What the processor does with the code that fetches the process arguments:
//! how it counts them, and how it measures and copies each one.
use crate::bytes::{le32, le64, u32_at, u64_at};
use crate::target::{Reloc, RelocKind, Section, Sym};
use crate::x86::arithmetic::run_op;
use crate::x86::emit::{modrm, rex, CallTarget, Emit, RAX};
use crate::x86::fragments::{
    agrees, becomes, in_frame, lemma_becomes, lemma_modrm, lemma_plain, lemma_put_front,
    lemma_reg_operand, lemma_rex, quiet, run_put,
};
use crate::x86::instrs::{argv_code, argv_copy, argv_head, argv_object, strlen_loop};
use crate::x86::machine::{
    alu_flags, decode, fetch, lemma_onward, lemma_read_elsewhere, lemma_read_written, prefixes, reaches,
    read64, signed32, signed8, wrap64, write64, Alu, Cpu, Fpu, Op, Place,
};
use crate::x86::regalloc::Loc;
use crate::x86::stretches::copied;
use vstd::prelude::*;

verus! {

/// The bytes up to the call of the allocator.
spec fn head_bytes() -> Seq<u8> {
    seq![
        0x48, 0x89, 0xE0, 0x48, 0x83, 0xE4, 0xF0, 0x50, 0x48, 0xB8, 0, 0, 0, 0, 0, 0, 0, 0, 0x4C,
        0x8B, 0x08, 0x31, 0xC9, 0x4D, 0x85, 0xC9, 0x74, 0x12, 0x49, 0x8B, 0x09, 0x48, 0xC7, 0xC0,
        0, 4, 0, 0, 0x48, 0x39, 0xC1, 0x76, 0x03, 0x48, 0x89, 0xC1, 0x48, 0x8D, 0x34, 0xCD, 8, 0,
        0, 0, 0x51, 0xE8,
    ]
}

/// The bytes behind the call of the allocator.
spec fn back_bytes() -> Seq<u8> {
    seq![0x59, 0x48, 0x89, 0xC7, 0x48, 0x89, 0x0F, 0x4D, 0x31, 0xDB]
}

proof fn lemma_numbers()
    ensures
        le32(1024) == seq![0u8, 4, 0, 0],
        le32(8) == seq![8u8, 0, 0, 0],
        le32(0) == seq![0u8, 0, 0, 0],
        le64(0) == seq![0u8, 0, 0, 0, 0, 0, 0, 0],
{
    assert(le32(1024) =~= seq![0u8, 4, 0, 0]);
    assert(le32(8) =~= seq![8u8, 0, 0, 0]);
    assert(le32(0) =~= seq![0u8, 0, 0, 0]);
    assert(le64(0) =~= seq![0u8, 0, 0, 0, 0, 0, 0, 0]);
}

#[verifier::spinoff_prover]
#[verifier::rlimit(40)]
proof fn lemma_head(s: Emit)
    ensures
        argv_head(s).code == s.code + (head_bytes() + (seq![0u8, 0, 0, 0] + back_bytes())),
        argv_head(s).code.len() == s.code.len() + 70,
{
    lemma_numbers();
    assert(argv_head(s).code =~= s.code + (head_bytes() + (seq![0u8, 0, 0, 0] + back_bytes())));
}

/// Whether `c` has the code of the head from `at` on, but for the window and
/// the distance of the call.
pub open spec fn head_stands(c: Seq<u8>, s: Emit) -> bool {
    let at = s.code.len() as int;
    &&& argv_head(s).code.len() <= c.len()
    &&& forall|i: int|
        at <= i < argv_head(s).code.len() && !(at + 10 <= i < at + 18) && !(at + 56 <= i < at + 60)
            ==> #[trigger] c[i] == argv_head(s).code[i]
}

spec fn first_stands(c: Seq<u8>, at: int) -> bool {
    forall|j: int| 0 <= j < 56 && !(10 <= j < 18) ==> c[at + j] == #[trigger] head_bytes()[j]
}

proof fn lemma_first(c: Seq<u8>, s: Emit)
    requires
        head_stands(c, s),
    ensures
        first_stands(c, s.code.len() as int),
        forall|j: int| 0 <= j < 10 ==> c[s.code.len() + 60 + j] == #[trigger] back_bytes()[j],
{
    let at = s.code.len() as int;
    let e = argv_head(s).code;
    lemma_head(s);
    assert forall|j: int| 0 <= j < 56 && !(10 <= j < 18) implies c[at + j]
        == #[trigger] head_bytes()[j] by {
        assert(e[at + j] == head_bytes()[j]);
        assert(c[at + j] == e[at + j]);
    }
    assert forall|j: int| 0 <= j < 10 implies c[at + 60 + j] == #[trigger] back_bytes()[j] by {
        assert(e[at + 60 + j] == back_bytes()[j]);
        assert(c[at + 60 + j] == e[at + 60 + j]);
    }
}

// ---- the instructions

proof fn decode_copy(c: Seq<u8>, at: int, reg: u8, rm: u8)
    requires
        c[at] == 0x48 && c[at + 1] == 0x89 && c[at + 2] == modrm(3, reg, rm),
        reg < 8,
        rm < 8,
    ensures
        decode(c, at) == (
            Op::Mov { to: Place::Reg(rm as int), from: Place::Reg(reg as int) },
            at + 3,
        ),
{
    assert(rex(true, false, false) == 0x48);
    lemma_rex(c, at, true, false, false);
    lemma_reg_operand(c, prefixes(c, at), at + 2, reg, rm);
    reveal(decode);
}

proof fn decode_align(c: Seq<u8>, at: int)
    requires
        c[at] == 0x48 && c[at + 1] == 0x83 && c[at + 2] == 0xE4 && c[at + 3] == 0xF0,
    ensures
        decode(c, at) == (
            Op::Arith {
                f: Alu::Both,
                wide: true,
                keep: true,
                to: Place::Reg(4),
                from: Place::Imm(0xFFFF_FFFF_FFFF_FFF0),
            },
            at + 4,
        ),
{
    assert(rex(true, false, false) == 0x48 && modrm(3, 4, 4) == 0xE4);
    lemma_rex(c, at, true, false, false);
    lemma_reg_operand(c, prefixes(c, at), at + 2, 4, 4);
    assert(wrap64(signed8(0xF0)) == 0xFFFF_FFFF_FFFF_FFF0);
    reveal(decode);
}

proof fn decode_push(c: Seq<u8>, at: int)
    requires
        0x50 <= c[at] < 0x58,
    ensures
        decode(c, at) == (Op::Push(c[at] - 0x50), at + 1),
{
    lemma_plain(c, at);
    reveal(decode);
}

proof fn decode_window(c: Seq<u8>, at: int)
    requires
        c[at] == 0x48 && c[at + 1] == 0xB8,
    ensures
        decode(c, at) == (
            Op::Mov { to: Place::Reg(0), from: Place::Imm(u64_at(c, at + 2)) },
            at + 10,
        ),
{
    reveal(decode);
}

proof fn decode_loads(c: Seq<u8>, at: int)
    requires
        (c[at] == 0x4C && c[at + 1] == 0x8B && c[at + 2] == 0x08) || (c[at] == 0x49 && c[at + 1]
            == 0x8B && c[at + 2] == 0x09),
    ensures
        c[at] == 0x4C ==> decode(c, at) == (
            Op::Mov {
                to: Place::Reg(9),
                from: Place::Mem { base: 0, index: -1, scale: 1, disp: 0 },
            },
            at + 3,
        ),
        c[at] == 0x49 ==> decode(c, at) == (
            Op::Mov {
                to: Place::Reg(1),
                from: Place::Mem { base: 9, index: -1, scale: 1, disp: 0 },
            },
            at + 3,
        ),
{
    assert(rex(true, true, false) == 0x4C && rex(true, false, true) == 0x49);
    assert(modrm(0, 1, 0) == 0x08 && modrm(0, 1, 1) == 0x09);
    lemma_modrm(0, 1, 0);
    lemma_modrm(0, 1, 1);
    if c[at] == 0x4C {
        lemma_rex(c, at, true, true, false);
    } else {
        lemma_rex(c, at, true, false, true);
    }
    reveal(decode);
}

proof fn decode_clear(c: Seq<u8>, at: int)
    requires
        c[at] == 0x31 && c[at + 1] == 0xC9,
    ensures
        decode(c, at) == (
            Op::Arith {
                f: Alu::Differ,
                wide: false,
                keep: true,
                to: Place::Reg(1),
                from: Place::Reg(1),
            },
            at + 2,
        ),
{
    lemma_plain(c, at);
    assert(modrm(3, 1, 1) == 0xC9);
    lemma_reg_operand(c, prefixes(c, at), at + 1, 1, 1);
    reveal(decode);
}

proof fn decode_test(c: Seq<u8>, at: int)
    requires
        c[at] == 0x4D && c[at + 1] == 0x85 && c[at + 2] == 0xC9,
    ensures
        decode(c, at) == (
            Op::Arith {
                f: Alu::Both,
                wide: true,
                keep: false,
                to: Place::Reg(9),
                from: Place::Reg(9),
            },
            at + 3,
        ),
{
    assert(rex(true, true, true) == 0x4D && modrm(3, 1, 1) == 0xC9);
    lemma_rex(c, at, true, true, true);
    lemma_reg_operand(c, prefixes(c, at), at + 2, 1, 1);
    reveal(decode);
}

proof fn decode_short(c: Seq<u8>, at: int)
    requires
        0x70 <= c[at] < 0x80,
        c[at + 1] < 0x80,
    ensures
        decode(c, at) == (Op::JumpIf { cc: c[at] - 0x70, d: c[at + 1] as int }, at + 2),
{
    lemma_plain(c, at);
    reveal(decode);
}

proof fn decode_limit(c: Seq<u8>, at: int)
    requires
        c[at] == 0x48 && c[at + 1] == 0xC7 && c[at + 2] == 0xC0 && c[at + 3] == 0 && c[at + 4] == 4
            && c[at + 5] == 0 && c[at + 6] == 0,
    ensures
        decode(c, at) == (Op::Mov { to: Place::Reg(0), from: Place::Imm(1024) }, at + 7),
{
    assert(rex(true, false, false) == 0x48 && modrm(3, 0, 0) == 0xC0);
    lemma_rex(c, at, true, false, false);
    lemma_reg_operand(c, prefixes(c, at), at + 2, 0, 0);
    assert(u32_at(c, at + 3) == 1024);
    assert(wrap64(signed32(1024)) == 1024);
    reveal(decode);
}

proof fn decode_against(c: Seq<u8>, at: int)
    requires
        c[at] == 0x48 && c[at + 1] == 0x39 && c[at + 2] == 0xC1,
    ensures
        decode(c, at) == (
            Op::Arith {
                f: Alu::Minus,
                wide: true,
                keep: false,
                to: Place::Reg(1),
                from: Place::Reg(0),
            },
            at + 3,
        ),
{
    assert(rex(true, false, false) == 0x48 && modrm(3, 0, 1) == 0xC1);
    lemma_rex(c, at, true, false, false);
    lemma_reg_operand(c, prefixes(c, at), at + 2, 0, 1);
    reveal(decode);
}

proof fn decode_size(c: Seq<u8>, at: int)
    requires
        c[at] == 0x48 && c[at + 1] == 0x8D && c[at + 2] == 0x34 && c[at + 3] == 0xCD && c[at + 4]
            == 8 && c[at + 5] == 0 && c[at + 6] == 0 && c[at + 7] == 0,
    ensures
        decode(c, at) == (
            Op::Lea { to: 6, from: Place::Mem { base: -1, index: 1, scale: 8, disp: 8 } },
            at + 8,
        ),
{
    assert(rex(true, false, false) == 0x48);
    lemma_rex(c, at, true, false, false);
    assert(u32_at(c, at + 4) == 8);
    assert(signed32(8) == 8);
    reveal(decode);
}

// ---- the steps

/// `sp`, rounded down to a multiple of 16.
pub open spec fn aligned(sp: u64) -> int {
    sp - sp % 16
}

proof fn lemma_aligned(sp: u64)
    ensures
        sp & 0xFFFF_FFFF_FFFF_FFF0u64 == aligned(sp),
{
    assert(sp & 0xFFFF_FFFF_FFFF_FFF0u64 == sp - sp % 16) by (bit_vector);
}

proof fn run_push(u: Fpu, c: Seq<u8>, m: Cpu, r: int) -> (x: Cpu)
    requires
        0 <= r < 8,
        c[m.ip] == 0x50 + r,
        m.regs[4] >= 8,
    ensures
        reaches(u, c, m, x),
        x.ip == m.ip + 1,
        x.regs == m.regs.insert(4, (m.regs[4] - 8) as u64),
        x.mem == write64(m.mem, m.regs[4] - 8, m.regs[r]),
{
    decode_push(c, m.ip);
    assert(wrap64(m.regs[4] - 8) == m.regs[4] - 8);
    run_op(u, c, m, Op::Push(r), m.ip + 1)
}

proof fn run_align(u: Fpu, c: Seq<u8>, m: Cpu) -> (x: Cpu)
    requires
        decode(c, m.ip) == (
            Op::Arith {
                f: Alu::Both,
                wide: true,
                keep: true,
                to: Place::Reg(4),
                from: Place::Imm(0xFFFF_FFFF_FFFF_FFF0),
            },
            m.ip + 4,
        ),
    ensures
        reaches(u, c, m, x),
        x.ip == m.ip + 4,
        x.regs == m.regs.insert(4, aligned(m.regs[4]) as u64),
        x.mem == m.mem,
{
    lemma_aligned(m.regs[4]);
    run_op(
        u,
        c,
        m,
        Op::Arith {
            f: Alu::Both,
            wide: true,
            keep: true,
            to: Place::Reg(4),
            from: Place::Imm(0xFFFF_FFFF_FFFF_FFF0),
        },
        m.ip + 4,
    )
}

proof fn run_mov(u: Fpu, c: Seq<u8>, m: Cpu, to: int, from: Place, next: int) -> (x: Cpu)
    requires
        decode(c, m.ip) == (Op::Mov { to: Place::Reg(to), from }, next),
    ensures
        reaches(u, c, m, x),
        x.ip == next,
        x.regs == m.regs.insert(to, fetch(m, from, next)),
        x.mem == m.mem,
{
    run_op(u, c, m, Op::Mov { to: Place::Reg(to), from }, next)
}

/// The stack is aligned with its old pointer on it, and the window's value is
/// in `rax`.
#[verifier::rlimit(40)]
proof fn run_open(u: Fpu, c: Seq<u8>, at: int, m: Cpu) -> (x: Cpu)
    requires
        first_stands(c, at),
        m.ip == at,
        m.regs[4] >= 64,
    ensures
        reaches(u, c, m, x),
        x.ip == at + 18,
        x.regs[0] == u64_at(c, at + 10),
        x.regs[4] == aligned(m.regs[4]) - 8,
        forall|q: int| q != 0 && q != 4 ==> #[trigger] x.regs[q] == m.regs[q],
        x.mem == write64(m.mem, aligned(m.regs[4]) - 8, m.regs[4]),
{
    let b = head_bytes();
    assert(c[at + 0] == b[0] && c[at + 1] == b[1] && c[at + 2] == b[2] && c[at + 3] == b[3] && c[at
        + 4] == b[4] && c[at + 5] == b[5] && c[at + 6] == b[6] && c[at + 7] == b[7] && c[at + 8]
        == b[8] && c[at + 9] == b[9]);
    assert(modrm(3, 4, 0) == 0xE0);
    decode_copy(c, at, 4, 0);
    let w = run_mov(u, c, m, 0, Place::Reg(4), at + 3);
    decode_align(c, at + 3);
    let y = run_align(u, c, w);
    lemma_onward(u, c, m, w, y);
    let z = run_push(u, c, y, 0);
    lemma_onward(u, c, m, y, z);
    decode_window(c, at + 8);
    let x = run_mov(u, c, z, 0, Place::Imm(u64_at(c, at + 10)), at + 18);
    lemma_onward(u, c, m, z, x);
    x
}

/// How many arguments are taken: as many as the stack of process start says,
/// 1024 at most, and none where that stack was not kept.
pub open spec fn count_of(mem: Map<int, u8>, sp: u64) -> u64 {
    if sp == 0 {
        0
    } else if read64(mem, sp as int) <= 1024 {
        read64(mem, sp as int)
    } else {
        1024
    }
}

#[verifier::rlimit(40)]
proof fn run_checked(u: Fpu, c: Seq<u8>, at: int, m: Cpu) -> (x: Cpu)
    requires
        first_stands(c, at),
        m.ip == at + 18,
    ensures
        reaches(u, c, m, x),
        ({
            let sp = read64(m.mem, m.regs[0] as int);
            &&& x.regs == m.regs.insert(9, sp).insert(1, 0)
            &&& x.ip == if sp == 0 {
                at + 46
            } else {
                at + 28
            }
        }),
        x.mem == m.mem,
{
    let b = head_bytes();
    assert(c[at + 18] == b[18] && c[at + 19] == b[19] && c[at + 20] == b[20] && c[at + 21] == b[21]
        && c[at + 22] == b[22] && c[at + 23] == b[23] && c[at + 24] == b[24] && c[at + 25] == b[25]
        && c[at + 26] == b[26] && c[at + 27] == b[27]);
    decode_loads(c, at + 18);
    let w = run_mov(
        u,
        c,
        m,
        9,
        Place::Mem { base: 0, index: -1, scale: 1, disp: 0 },
        at + 21,
    );
    decode_clear(c, at + 21);
    let y = run_zero(u, c, w);
    lemma_onward(u, c, m, w, y);
    decode_test(c, at + 23);
    let z = run_tested(u, c, y);
    lemma_onward(u, c, m, y, z);
    decode_short(c, at + 26);
    let x = run_op(u, c, z, Op::JumpIf { cc: 4, d: 18 }, at + 28);
    lemma_onward(u, c, m, z, x);
    x
}

proof fn run_zero(u: Fpu, c: Seq<u8>, m: Cpu) -> (x: Cpu)
    requires
        decode(c, m.ip) == (
            Op::Arith {
                f: Alu::Differ,
                wide: false,
                keep: true,
                to: Place::Reg(1),
                from: Place::Reg(1),
            },
            m.ip + 2,
        ),
    ensures
        reaches(u, c, m, x),
        x.ip == m.ip + 2,
        x.regs == m.regs.insert(1, 0),
        x.mem == m.mem,
{
    let v = m.regs[1];
    assert(v ^ v == 0) by (bit_vector);
    run_op(
        u,
        c,
        m,
        Op::Arith {
            f: Alu::Differ,
            wide: false,
            keep: true,
            to: Place::Reg(1),
            from: Place::Reg(1),
        },
        m.ip + 2,
    )
}

proof fn run_tested(u: Fpu, c: Seq<u8>, m: Cpu) -> (x: Cpu)
    requires
        decode(c, m.ip) == (
            Op::Arith {
                f: Alu::Both,
                wide: true,
                keep: false,
                to: Place::Reg(9),
                from: Place::Reg(9),
            },
            m.ip + 3,
        ),
    ensures
        reaches(u, c, m, x),
        x.ip == m.ip + 3,
        x.regs == m.regs,
        x.mem == m.mem,
        x.flags.zf == (m.regs[9] == 0),
{
    let v = m.regs[9];
    assert(v & v == v) by (bit_vector);
    run_op(
        u,
        c,
        m,
        Op::Arith {
            f: Alu::Both,
            wide: true,
            keep: false,
            to: Place::Reg(9),
            from: Place::Reg(9),
        },
        m.ip + 3,
    )
}

proof fn run_against(u: Fpu, c: Seq<u8>, m: Cpu) -> (x: Cpu)
    requires
        decode(c, m.ip) == (
            Op::Arith {
                f: Alu::Minus,
                wide: true,
                keep: false,
                to: Place::Reg(1),
                from: Place::Reg(0),
            },
            m.ip + 3,
        ),
    ensures
        reaches(u, c, m, x),
        x.ip == m.ip + 3,
        x.regs == m.regs,
        x.mem == m.mem,
        x.flags.cf == (m.regs[1] < m.regs[0]),
        x.flags.zf == (m.regs[1] == m.regs[0]),
{
    let a = m.regs[1];
    let b = m.regs[0];
    assert((wrap64(a - b) == 0) == (a == b));
    run_op(
        u,
        c,
        m,
        Op::Arith {
            f: Alu::Minus,
            wide: true,
            keep: false,
            to: Place::Reg(1),
            from: Place::Reg(0),
        },
        m.ip + 3,
    )
}

#[verifier::rlimit(40)]
proof fn run_counted(u: Fpu, c: Seq<u8>, at: int, m: Cpu) -> (x: Cpu)
    requires
        first_stands(c, at),
        m.ip == at + 28,
    ensures
        reaches(u, c, m, x),
        x.ip == at + 46,
        ({
            let v = read64(m.mem, m.regs[9] as int);
            x.regs[1] == if v <= 1024 {
                v
            } else {
                1024
            }
        }),
        forall|q: int| q != 0 && q != 1 ==> #[trigger] x.regs[q] == m.regs[q],
        x.mem == m.mem,
{
    let b = head_bytes();
    assert(c[at + 28] == b[28] && c[at + 29] == b[29] && c[at + 30] == b[30] && c[at + 31] == b[31]
        && c[at + 32] == b[32] && c[at + 33] == b[33] && c[at + 34] == b[34] && c[at + 35] == b[35]
        && c[at + 36] == b[36] && c[at + 37] == b[37] && c[at + 38] == b[38] && c[at + 39] == b[39]
        && c[at + 40] == b[40]);
    assert(c[at + 41] == b[41] && c[at + 42] == b[42] && c[at + 43] == b[43] && c[at + 44] == b[44]
        && c[at + 45] == b[45]);
    decode_loads(c, at + 28);
    let w = run_mov(
        u,
        c,
        m,
        1,
        Place::Mem { base: 9, index: -1, scale: 1, disp: 0 },
        at + 31,
    );
    decode_limit(c, at + 31);
    let y = run_mov(u, c, w, 0, Place::Imm(1024), at + 38);
    lemma_onward(u, c, m, w, y);
    decode_against(c, at + 38);
    let z = run_against(u, c, y);
    lemma_onward(u, c, m, y, z);
    decode_short(c, at + 41);
    let k = run_op(u, c, z, Op::JumpIf { cc: 6, d: 3 }, at + 43);
    lemma_onward(u, c, m, z, k);
    if y.regs[1] <= 1024 {
        k
    } else {
        assert(modrm(3, 0, 1) == 0xC1);
        decode_copy(c, at + 43, 0, 1);
        let x = run_mov(u, c, k, 1, Place::Reg(0), at + 46);
        lemma_onward(u, c, m, k, x);
        x
    }
}

#[verifier::rlimit(40)]
proof fn run_sized(u: Fpu, c: Seq<u8>, at: int, m: Cpu) -> (x: Cpu)
    requires
        first_stands(c, at),
        m.ip == at + 46,
        m.regs[1] <= 1024,
        m.regs[4] >= 8,
    ensures
        reaches(u, c, m, x),
        x.ip == at + 55,
        x.regs[6] == 8 * m.regs[1] + 8,
        x.regs[4] == m.regs[4] - 8,
        forall|q: int| q != 4 && q != 6 ==> #[trigger] x.regs[q] == m.regs[q],
        x.mem == write64(m.mem, m.regs[4] - 8, m.regs[1]),
{
    let b = head_bytes();
    assert(c[at + 46] == b[46] && c[at + 47] == b[47] && c[at + 48] == b[48] && c[at + 49] == b[49]
        && c[at + 50] == b[50] && c[at + 51] == b[51] && c[at + 52] == b[52] && c[at + 53] == b[53]
        && c[at + 54] == b[54]);
    decode_size(c, at + 46);
    assert(wrap64(0 + m.regs[1] * 8 + 8) == 8 * m.regs[1] + 8);
    let y = run_op(
        u,
        c,
        m,
        Op::Lea { to: 6, from: Place::Mem { base: -1, index: 1, scale: 8, disp: 8 } },
        at + 54,
    );
    let x = run_push(u, c, y, 1);
    lemma_onward(u, c, m, y, x);
    x
}

/// Fetching the process arguments leaves for the allocator with the stack
/// aligned, the old stack pointer on it and the count above that, and asks for
/// one word for the length and one for each argument. The count comes from
/// the stack of process start, whose place the window leads to.
#[verifier::spinoff_prover]
#[verifier::rlimit(40)]
pub proof fn arguments_are_counted(u: Fpu, c: Seq<u8>, s: Emit, m: Cpu) -> (y: Cpu)
    requires
        head_stands(c, s),
        m.ip == s.code.len(),
        m.regs[4] >= 64,
    ensures
        reaches(u, c, m, y),
        y.ip == s.code.len() + 55,
        c[y.ip] == 0xE8,
        argv_head(s).calls == s.calls.push(((y.ip + 1) as usize, CallTarget::HelperAlloc)),
        argv_head(s).relocs == s.relocs.push(
            Reloc {
                kind: RelocKind::Abs64,
                section: Section::Code,
                site: (s.code.len() + 10) as usize,
                sym: Sym::ArgvRsp,
            },
        ),
        ({
            let mem = write64(m.mem, aligned(m.regs[4]) - 8, m.regs[4]);
            let sp = read64(mem, u64_at(c, s.code.len() as int + 10) as int);
            let n = count_of(mem, sp);
            &&& y.regs[6] == 8 * n + 8
            &&& y.regs[9] == sp
            &&& y.regs[4] % 16 == 0
            &&& y.regs[4] == aligned(m.regs[4]) - 16
            &&& read64(y.mem, y.regs[4] as int) == n
            &&& read64(y.mem, y.regs[4] + 8) == m.regs[4]
        }),
{
    let at = s.code.len() as int;
    lemma_first(c, s);
    assert(c[at + 55] == head_bytes()[55]);
    let a = run_open(u, c, at, m);
    let b = run_checked(u, c, at, a);
    lemma_onward(u, c, m, a, b);
    let mem = write64(m.mem, aligned(m.regs[4]) - 8, m.regs[4]);
    let sp = read64(mem, u64_at(c, at + 10) as int);
    let d = if sp == 0 {
        b
    } else {
        let d = run_counted(u, c, at, b);
        lemma_onward(u, c, m, b, d);
        d
    };
    let n = count_of(mem, sp);
    assert(d.regs[1] == n && d.mem == mem && d.regs[9] == sp && d.regs[4] == aligned(m.regs[4])
        - 8);
    let y = run_sized(u, c, at, d);
    lemma_onward(u, c, m, d, y);
    let top = aligned(m.regs[4]) - 16;
    lemma_read_written(mem, top, n);
    lemma_read_elsewhere(mem, top, n, top + 8);
    lemma_read_written(m.mem, top + 8, m.regs[4]);
    y
}

// ---- the array

proof fn decode_back(c: Seq<u8>, at: int)
    requires
        forall|j: int| 0 <= j < 10 ==> c[at + j] == #[trigger] back_bytes()[j],
    ensures
        decode(c, at) == (Op::Pop(1), at + 1),
        decode(c, at + 1) == (Op::Mov { to: Place::Reg(7), from: Place::Reg(0) }, at + 4),
        decode(c, at + 4) == (
            Op::Mov {
                to: Place::Mem { base: 7, index: -1, scale: 1, disp: 0 },
                from: Place::Reg(1),
            },
            at + 7,
        ),
        decode(c, at + 7) == (
            Op::Arith {
                f: Alu::Differ,
                wide: true,
                keep: true,
                to: Place::Reg(11),
                from: Place::Reg(11),
            },
            at + 10,
        ),
{
    let b = back_bytes();
    assert(c[at + 0] == b[0] && c[at + 1] == b[1] && c[at + 2] == b[2] && c[at + 3] == b[3] && c[at
        + 4] == b[4] && c[at + 5] == b[5] && c[at + 6] == b[6] && c[at + 7] == b[7] && c[at + 8]
        == b[8] && c[at + 9] == b[9]);
    assert(rex(true, false, false) == 0x48 && rex(true, true, true) == 0x4D);
    assert(modrm(3, 0, 7) == 0xC7 && modrm(0, 1, 7) == 0x0F && modrm(3, 3, 3) == 0xDB);
    lemma_plain(c, at);
    decode_copy(c, at + 1, 0, 7);
    lemma_rex(c, at + 4, true, false, false);
    lemma_rex(c, at + 7, true, true, true);
    lemma_modrm(0, 1, 7);
    lemma_reg_operand(c, prefixes(c, at + 7), at + 9, 3, 3);
    reveal(decode);
}

/// When the allocator comes back, the count is the first word of the array,
/// which is in `rdi`, and the index in `r11` is zero.
#[verifier::spinoff_prover]
#[verifier::rlimit(40)]
pub proof fn arrays_start_with_their_count(u: Fpu, c: Seq<u8>, s: Emit, z: Cpu) -> (x: Cpu)
    requires
        head_stands(c, s),
        z.ip == s.code.len() + 60,
        z.regs[4] + 8 < 0x1_0000_0000_0000_0000,
    ensures
        reaches(u, c, z, x),
        x.ip == argv_head(s).code.len(),
        x.regs[7] == z.regs[0],
        x.regs[11] == 0,
        x.regs[4] == z.regs[4] + 8,
        x.regs[9] == z.regs[9],
        x.mem == write64(z.mem, z.regs[0] as int, read64(z.mem, z.regs[4] as int)),
{
    let at = s.code.len() as int + 60;
    lemma_head(s);
    lemma_first(c, s);
    decode_back(c, at);
    let n = read64(z.mem, z.regs[4] as int);
    let a = run_pop(u, c, z);
    let b = run_mov(u, c, a, 7, Place::Reg(0), at + 4);
    lemma_onward(u, c, z, a, b);
    let d = run_length(u, c, b);
    lemma_onward(u, c, z, b, d);
    let x = run_index(u, c, d);
    lemma_onward(u, c, z, d, x);
    x
}

proof fn run_pop(u: Fpu, c: Seq<u8>, m: Cpu) -> (x: Cpu)
    requires
        decode(c, m.ip) == (Op::Pop(1), m.ip + 1),
        m.regs[4] + 8 < 0x1_0000_0000_0000_0000,
    ensures
        reaches(u, c, m, x),
        x.ip == m.ip + 1,
        x.regs == m.regs.insert(4, (m.regs[4] + 8) as u64).insert(
            1,
            read64(m.mem, m.regs[4] as int),
        ),
        x.mem == m.mem,
{
    assert(wrap64(m.regs[4] + 8) == m.regs[4] + 8);
    run_op(u, c, m, Op::Pop(1), m.ip + 1)
}

proof fn run_length(u: Fpu, c: Seq<u8>, m: Cpu) -> (x: Cpu)
    requires
        decode(c, m.ip) == (
            Op::Mov {
                to: Place::Mem { base: 7, index: -1, scale: 1, disp: 0 },
                from: Place::Reg(1),
            },
            m.ip + 3,
        ),
    ensures
        reaches(u, c, m, x),
        x.ip == m.ip + 3,
        x.regs == m.regs,
        x.mem == write64(m.mem, m.regs[7] as int, m.regs[1]),
{
    run_op(
        u,
        c,
        m,
        Op::Mov {
            to: Place::Mem { base: 7, index: -1, scale: 1, disp: 0 },
            from: Place::Reg(1),
        },
        m.ip + 3,
    )
}

proof fn run_index(u: Fpu, c: Seq<u8>, m: Cpu) -> (x: Cpu)
    requires
        decode(c, m.ip) == (
            Op::Arith {
                f: Alu::Differ,
                wide: true,
                keep: true,
                to: Place::Reg(11),
                from: Place::Reg(11),
            },
            m.ip + 3,
        ),
    ensures
        reaches(u, c, m, x),
        x.ip == m.ip + 3,
        x.regs == m.regs.insert(11, 0),
        x.mem == m.mem,
{
    let v = m.regs[11];
    assert(v ^ v == 0) by (bit_vector);
    run_op(
        u,
        c,
        m,
        Op::Arith {
            f: Alu::Differ,
            wide: true,
            keep: true,
            to: Place::Reg(11),
            from: Place::Reg(11),
        },
        m.ip + 3,
    )
}

// ---- measuring

spec fn length_bytes() -> Seq<u8> {
    seq![
        0x31, 0xD2, 0x41, 0x8A, 0x04, 0x10, 0x84, 0xC0, 0x74, 0x05, 0x48, 0xFF, 0xC2, 0xEB, 0xF3,
    ]
}

spec fn length_stands(c: Seq<u8>, at: int) -> bool {
    forall|j: int| 0 <= j < 15 ==> c[at + j] == #[trigger] length_bytes()[j]
}

proof fn decode_length(c: Seq<u8>, at: int)
    requires
        length_stands(c, at),
    ensures
        decode(c, at) == (
            Op::Arith {
                f: Alu::Differ,
                wide: false,
                keep: true,
                to: Place::Reg(2),
                from: Place::Reg(2),
            },
            at + 2,
        ),
        decode(c, at + 2) == (
            Op::LoadByte { to: 0, from: Place::Mem { base: 8, index: 2, scale: 1, disp: 0 } },
            at + 6,
        ),
        decode(c, at + 6) == (Op::TestByte { a: Place::Reg(0), b: 0 }, at + 8),
        decode(c, at + 8) == (Op::JumpIf { cc: 4, d: 5 }, at + 10),
        decode(c, at + 10) == (Op::Step { to: Place::Reg(2), up: true }, at + 13),
        decode(c, at + 13) == (Op::Jump(-13), at + 15),
{
    let b = length_bytes();
    assert(c[at + 0] == b[0] && c[at + 1] == b[1] && c[at + 2] == b[2] && c[at + 3] == b[3] && c[at
        + 4] == b[4] && c[at + 5] == b[5] && c[at + 6] == b[6] && c[at + 7] == b[7] && c[at + 8]
        == b[8] && c[at + 9] == b[9] && c[at + 10] == b[10] && c[at + 11] == b[11] && c[at + 12]
        == b[12] && c[at + 13] == b[13] && c[at + 14] == b[14]);
    assert(rex(true, false, false) == 0x48 && rex(false, false, true) == 0x41);
    assert(modrm(3, 2, 2) == 0xD2 && modrm(3, 0, 0) == 0xC0 && modrm(3, 0, 2) == 0xC2);
    lemma_plain(c, at);
    lemma_reg_operand(c, prefixes(c, at), at + 1, 2, 2);
    lemma_rex(c, at + 2, false, false, true);
    lemma_plain(c, at + 6);
    lemma_reg_operand(c, prefixes(c, at + 6), at + 7, 0, 0);
    decode_short(c, at + 8);
    lemma_rex(c, at + 10, true, false, false);
    lemma_reg_operand(c, prefixes(c, at + 10), at + 12, 0, 2);
    lemma_plain(c, at + 13);
    assert(signed8(0xF3) == -13);
    reveal(decode);
}

/// Whether the text at `p` has `n` bytes before its zero.
pub open spec fn text_length(mem: Map<int, u8>, p: int, n: int) -> bool {
    &&& 0 <= n
    &&& forall|j: int| 0 <= j < n ==> #[trigger] mem[p + j] != 0
    &&& mem[p + n] == 0
}

/// One byte of the text: whether it is the zero.
#[verifier::spinoff_prover]
#[verifier::rlimit(40)]
proof fn run_look(u: Fpu, c: Seq<u8>, at: int, m: Cpu) -> (x: Cpu)
    requires
        length_stands(c, at),
        m.ip == at + 2,
        m.regs[8] + m.regs[2] < 0x1_0000_0000_0000_0000,
    ensures
        reaches(u, c, m, x),
        x.ip == if m.mem[m.regs[8] + m.regs[2]] == 0 {
            at + 15
        } else {
            at + 10
        },
        forall|q: int| q != 0 ==> #[trigger] x.regs[q] == m.regs[q],
        x.mem == m.mem,
{
    decode_length(c, at);
    let v = m.mem[m.regs[8] + m.regs[2]];
    assert(wrap64(m.regs[8] + m.regs[2] * 1 + 0) == m.regs[8] + m.regs[2]);
    let a = run_op(
        u,
        c,
        m,
        Op::LoadByte { to: 0, from: Place::Mem { base: 8, index: 2, scale: 1, disp: 0 } },
        at + 6,
    );
    assert(a.regs[0] % 0x100 == v);
    assert(v & v == v) by (bit_vector);
    let b = run_op(u, c, a, Op::TestByte { a: Place::Reg(0), b: 0 }, at + 8);
    lemma_onward(u, c, m, a, b);
    let x = run_op(u, c, b, Op::JumpIf { cc: 4, d: 5 }, at + 10);
    lemma_onward(u, c, m, b, x);
    x
}

#[verifier::rlimit(40)]
proof fn run_length_from(u: Fpu, c: Seq<u8>, at: int, m: Cpu, n: int) -> (x: Cpu)
    requires
        length_stands(c, at),
        m.ip == at + 2,
        text_length(m.mem, m.regs[8] as int, n),
        m.regs[2] <= n,
        m.regs[8] + n < 0x1_0000_0000_0000_0000,
    ensures
        reaches(u, c, m, x),
        x.ip == at + 15,
        x.regs[2] == n,
        forall|q: int| q != 0 && q != 2 ==> #[trigger] x.regs[q] == m.regs[q],
        x.mem == m.mem,
    decreases n - m.regs[2],
{
    let y = run_look(u, c, at, m);
    let k = m.regs[2] as int;
    if k == n {
        y
    } else {
        assert(m.mem[m.regs[8] + k] != 0);
        decode_length(c, at);
        let a = run_op(u, c, y, Op::Step { to: Place::Reg(2), up: true }, at + 13);
        lemma_onward(u, c, m, y, a);
        assert(wrap64(k + 1) == k + 1);
        let b = run_op(u, c, a, Op::Jump(-13), at + 15);
        lemma_onward(u, c, m, a, b);
        let x = run_length_from(u, c, at, b, n);
        lemma_onward(u, c, m, b, x);
        x
    }
}

/// Measuring leaves in `rdx` the number of bytes before the zero that ends
/// the text at `r8`.
#[verifier::rlimit(40)]
pub proof fn texts_are_measured(u: Fpu, c: Seq<u8>, s: Emit, m: Cpu, n: int) -> (x: Cpu)
    requires
        agrees(c, s.code.len() as int, strlen_loop(s).code),
        m.ip == s.code.len(),
        text_length(m.mem, m.regs[8] as int, n),
        m.regs[8] + n < 0x1_0000_0000_0000_0000,
    ensures
        reaches(u, c, m, x),
        x.ip == strlen_loop(s).code.len(),
        x.regs[2] == n,
        forall|q: int| q != 0 && q != 2 ==> #[trigger] x.regs[q] == m.regs[q],
        x.mem == m.mem,
{
    let at = s.code.len() as int;
    let e = strlen_loop(s).code;
    assert(e =~= s.code + length_bytes());
    assert(length_stands(c, at)) by {
        assert forall|j: int| 0 <= j < 15 implies c[at + j] == #[trigger] length_bytes()[j] by {
            assert(e[at + j] == length_bytes()[j]);
        }
    }
    decode_length(c, at);
    let y = run_rdx(u, c, m);
    let x = run_length_from(u, c, at, y, n);
    lemma_onward(u, c, m, y, x);
    x
}

proof fn run_rdx(u: Fpu, c: Seq<u8>, m: Cpu) -> (x: Cpu)
    requires
        decode(c, m.ip) == (
            Op::Arith {
                f: Alu::Differ,
                wide: false,
                keep: true,
                to: Place::Reg(2),
                from: Place::Reg(2),
            },
            m.ip + 2,
        ),
    ensures
        reaches(u, c, m, x),
        x.ip == m.ip + 2,
        x.regs == m.regs.insert(2, 0),
        x.mem == m.mem,
{
    let v = m.regs[2];
    assert(v ^ v == 0) by (bit_vector);
    run_op(
        u,
        c,
        m,
        Op::Arith {
            f: Alu::Differ,
            wide: false,
            keep: true,
            to: Place::Reg(2),
            from: Place::Reg(2),
        },
        m.ip + 2,
    )
}

// ---- copying

spec fn copy_bytes() -> Seq<u8> {
    seq![
        0x48, 0x85, 0xD2, 0x74, 0x16, 0x31, 0xC9, 0x41, 0x8A, 0x34, 0x08, 0x48, 0x88, 0xB4, 0x08,
        16, 0, 0, 0, 0x48, 0xFF, 0xC1, 0x48, 0x39, 0xD1, 0x7C, 0xEC, 0x58, 0x4A, 0x89, 0x44, 0xDF,
        0x08, 0x49, 0xFF, 0xC3,
    ]
}

spec fn copy_stands(c: Seq<u8>, at: int) -> bool {
    forall|j: int| 0 <= j < 36 ==> c[at + j] == #[trigger] copy_bytes()[j]
}

proof fn decode_open(c: Seq<u8>, at: int)
    requires
        copy_stands(c, at),
    ensures
        decode(c, at) == (
            Op::Arith {
                f: Alu::Both,
                wide: true,
                keep: false,
                to: Place::Reg(2),
                from: Place::Reg(2),
            },
            at + 3,
        ),
        decode(c, at + 3) == (Op::JumpIf { cc: 4, d: 22 }, at + 5),
        decode(c, at + 5) == (
            Op::Arith {
                f: Alu::Differ,
                wide: false,
                keep: true,
                to: Place::Reg(1),
                from: Place::Reg(1),
            },
            at + 7,
        ),
{
    let b = copy_bytes();
    assert(c[at + 0] == b[0] && c[at + 1] == b[1] && c[at + 2] == b[2] && c[at + 3] == b[3] && c[at
        + 4] == b[4] && c[at + 5] == b[5] && c[at + 6] == b[6]);
    assert(rex(true, false, false) == 0x48 && modrm(3, 2, 2) == 0xD2);
    lemma_rex(c, at, true, false, false);
    lemma_reg_operand(c, prefixes(c, at), at + 2, 2, 2);
    decode_short(c, at + 3);
    decode_clear(c, at + 5);
    reveal(decode);
}

proof fn decode_byte(c: Seq<u8>, at: int)
    requires
        copy_stands(c, at),
    ensures
        decode(c, at + 7) == (
            Op::LoadByte { to: 6, from: Place::Mem { base: 8, index: 1, scale: 1, disp: 0 } },
            at + 11,
        ),
        decode(c, at + 11) == (
            Op::StoreByte { to: Place::Mem { base: 0, index: 1, scale: 1, disp: 16 }, from: 6 },
            at + 19,
        ),
{
    let b = copy_bytes();
    assert(c[at + 7] == b[7] && c[at + 8] == b[8] && c[at + 9] == b[9] && c[at + 10] == b[10]
        && c[at + 11] == b[11] && c[at + 12] == b[12] && c[at + 13] == b[13] && c[at + 14] == b[14]
        && c[at + 15] == b[15] && c[at + 16] == b[16] && c[at + 17] == b[17] && c[at + 18]
        == b[18]);
    assert(rex(true, false, false) == 0x48 && rex(false, false, true) == 0x41);
    lemma_rex(c, at + 7, false, false, true);
    lemma_rex(c, at + 11, true, false, false);
    assert(u32_at(c, at + 15) == 16);
    assert(signed32(16) == 16);
    reveal(decode);
}

proof fn decode_turn(c: Seq<u8>, at: int)
    requires
        copy_stands(c, at),
    ensures
        decode(c, at + 19) == (Op::Step { to: Place::Reg(1), up: true }, at + 22),
        decode(c, at + 22) == (
            Op::Arith {
                f: Alu::Minus,
                wide: true,
                keep: false,
                to: Place::Reg(1),
                from: Place::Reg(2),
            },
            at + 25,
        ),
        decode(c, at + 25) == (Op::JumpIf { cc: 12, d: -20 }, at + 27),
{
    let b = copy_bytes();
    assert(c[at + 19] == b[19] && c[at + 20] == b[20] && c[at + 21] == b[21] && c[at + 22] == b[22]
        && c[at + 23] == b[23] && c[at + 24] == b[24] && c[at + 25] == b[25] && c[at + 26]
        == b[26]);
    assert(rex(true, false, false) == 0x48 && modrm(3, 0, 1) == 0xC1 && modrm(3, 2, 1) == 0xD1);
    lemma_rex(c, at + 19, true, false, false);
    lemma_rex(c, at + 22, true, false, false);
    lemma_reg_operand(c, prefixes(c, at + 19), at + 21, 0, 1);
    lemma_reg_operand(c, prefixes(c, at + 22), at + 24, 2, 1);
    lemma_plain(c, at + 25);
    assert(signed8(0xEC) == -20);
    reveal(decode);
}

proof fn decode_close(c: Seq<u8>, at: int)
    requires
        copy_stands(c, at),
    ensures
        decode(c, at + 27) == (Op::Pop(0), at + 28),
        decode(c, at + 28) == (
            Op::Mov {
                to: Place::Mem { base: 7, index: 11, scale: 8, disp: 8 },
                from: Place::Reg(0),
            },
            at + 33,
        ),
        decode(c, at + 33) == (Op::Step { to: Place::Reg(11), up: true }, at + 36),
{
    let b = copy_bytes();
    assert(c[at + 27] == b[27] && c[at + 28] == b[28] && c[at + 29] == b[29] && c[at + 30] == b[30]
        && c[at + 31] == b[31] && c[at + 32] == b[32] && c[at + 33] == b[33] && c[at + 34] == b[34]
        && c[at + 35] == b[35]);
    assert(rex(true, false, true) == 0x49 && modrm(3, 0, 3) == 0xC3);
    lemma_plain(c, at + 27);
    lemma_rex(c, at + 33, true, false, true);
    lemma_reg_operand(c, prefixes(c, at + 33), at + 35, 0, 3);
    assert(signed8(8) == 8);
    reveal(decode);
}

/// One byte from the text into the object.
#[verifier::spinoff_prover]
#[verifier::rlimit(40)]
proof fn run_byte(u: Fpu, c: Seq<u8>, at: int, m: Cpu) -> (x: Cpu)
    requires
        copy_stands(c, at),
        m.ip == at + 7,
        m.regs[8] + m.regs[1] < 0x1_0000_0000_0000_0000,
        m.regs[0] + m.regs[1] + 16 < 0x1_0000_0000_0000_0000,
    ensures
        reaches(u, c, m, x),
        x.ip == at + 19,
        x.mem == m.mem.insert(m.regs[0] + m.regs[1] + 16, m.mem[m.regs[8] + m.regs[1]]),
        forall|q: int| q != 6 ==> #[trigger] x.regs[q] == m.regs[q],
{
    decode_byte(c, at);
    assert(wrap64(m.regs[8] + m.regs[1] * 1 + 0) == m.regs[8] + m.regs[1]);
    assert(wrap64(m.regs[0] + m.regs[1] * 1 + 16) == m.regs[0] + m.regs[1] + 16);
    let v = m.mem[m.regs[8] + m.regs[1]];
    let a = run_op(
        u,
        c,
        m,
        Op::LoadByte { to: 6, from: Place::Mem { base: 8, index: 1, scale: 1, disp: 0 } },
        at + 11,
    );
    assert(a.regs[6] % 0x100 == v);
    let x = run_op(
        u,
        c,
        a,
        Op::StoreByte { to: Place::Mem { base: 0, index: 1, scale: 1, disp: 16 }, from: 6 },
        at + 19,
    );
    lemma_onward(u, c, m, a, x);
    x
}

proof fn lemma_below(a: u64, b: u64)
    requires
        a < 0x8000_0000_0000_0000,
        b < 0x8000_0000_0000_0000,
    ensures
        ({
            let f = alu_flags(Alu::Minus, a, b);
            (f.sf != f.of) == (a < b)
        }),
{
    if a >= b {
        assert(wrap64(a - b) == a - b);
    } else {
        assert(wrap64(a - b) == a - b + 0x1_0000_0000_0000_0000);
    }
}

/// The index one on, and back where there is more.
#[verifier::spinoff_prover]
#[verifier::rlimit(40)]
proof fn run_turn(u: Fpu, c: Seq<u8>, at: int, m: Cpu) -> (x: Cpu)
    requires
        copy_stands(c, at),
        m.ip == at + 19,
        m.regs[1] < m.regs[2] < 0x8000_0000_0000_0000,
    ensures
        reaches(u, c, m, x),
        x.ip == if m.regs[1] + 1 < m.regs[2] {
            at + 7
        } else {
            at + 27
        },
        x.regs == m.regs.insert(1, (m.regs[1] + 1) as u64),
        x.mem == m.mem,
{
    decode_turn(c, at);
    assert(wrap64(m.regs[1] + 1) == m.regs[1] + 1);
    let a = run_op(u, c, m, Op::Step { to: Place::Reg(1), up: true }, at + 22);
    lemma_below((m.regs[1] + 1) as u64, m.regs[2]);
    let b = run_op(
        u,
        c,
        a,
        Op::Arith {
            f: Alu::Minus,
            wide: true,
            keep: false,
            to: Place::Reg(1),
            from: Place::Reg(2),
        },
        at + 25,
    );
    lemma_onward(u, c, m, a, b);
    let x = run_op(u, c, b, Op::JumpIf { cc: 12, d: -20 }, at + 27);
    lemma_onward(u, c, m, b, x);
    x
}

/// What the loop leaves alone.
spec fn steady(m: Cpu, x: Cpu) -> bool {
    forall|q: int| q != 1 && q != 6 ==> #[trigger] x.regs[q] == m.regs[q]
}

#[verifier::rlimit(40)]
proof fn run_bytes(u: Fpu, c: Seq<u8>, at: int, m: Cpu) -> (x: Cpu)
    requires
        copy_stands(c, at),
        m.ip == at + 7,
        m.regs[1] < m.regs[2] < 0x8000_0000_0000_0000,
        m.regs[8] + m.regs[2] < 0x1_0000_0000_0000_0000,
        m.regs[0] + m.regs[2] + 16 < 0x1_0000_0000_0000_0000,
        m.regs[8] + m.regs[2] <= m.regs[0] + 16 || m.regs[0] + 16 + m.regs[2] <= m.regs[8],
    ensures
        reaches(u, c, m, x),
        x.ip == at + 27,
        steady(m, x),
        copied(
            m.mem,
            x.mem,
            m.regs[0] + 16 + m.regs[1],
            m.regs[8] + m.regs[1],
            m.regs[2] - m.regs[1],
        ),
    decreases m.regs[2] - m.regs[1],
{
    let y = run_byte(u, c, at, m);
    let z = run_turn(u, c, at, y);
    lemma_onward(u, c, m, y, z);
    let d = m.regs[0] + 16 + m.regs[1];
    let s = m.regs[8] + m.regs[1];
    let n = m.regs[2] - m.regs[1];
    if n == 1 {
        z
    } else {
        let x = run_bytes(u, c, at, z);
        lemma_onward(u, c, m, z, x);
        assert forall|a: int| #[trigger]
            x.mem[a] == if d <= a < d + n {
                m.mem[a - d + s]
            } else {
                m.mem[a]
            } by {
            if d < a < d + n {
                assert(z.mem[a - d + s] == m.mem[a - d + s]);
            } else {
                assert(x.mem[a] == z.mem[a]);
            }
        }
        x
    }
}

/// The object goes into its place in the array, and the index on.
#[verifier::spinoff_prover]
#[verifier::rlimit(40)]
proof fn run_close(u: Fpu, c: Seq<u8>, at: int, m: Cpu) -> (x: Cpu)
    requires
        copy_stands(c, at),
        m.ip == at + 27,
        m.regs[4] + 8 < 0x1_0000_0000_0000_0000,
        m.regs[7] + 8 * m.regs[11] + 8 < 0x1_0000_0000_0000_0000,
    ensures
        reaches(u, c, m, x),
        x.ip == at + 36,
        x.regs[4] == m.regs[4] + 8,
        x.regs[7] == m.regs[7],
        x.regs[9] == m.regs[9],
        x.regs[11] == m.regs[11] + 1,
        x.mem == write64(
            m.mem,
            m.regs[7] + 8 * m.regs[11] + 8,
            read64(m.mem, m.regs[4] as int),
        ),
{
    decode_close(c, at);
    assert(wrap64(m.regs[4] + 8) == m.regs[4] + 8);
    assert(wrap64(m.regs[7] + m.regs[11] * 8 + 8) == m.regs[7] + 8 * m.regs[11] + 8);
    assert(wrap64(m.regs[11] + 1) == m.regs[11] + 1);
    let a = run_op(u, c, m, Op::Pop(0), at + 28);
    let b = run_op(
        u,
        c,
        a,
        Op::Mov {
            to: Place::Mem { base: 7, index: 11, scale: 8, disp: 8 },
            from: Place::Reg(0),
        },
        at + 33,
    );
    lemma_onward(u, c, m, a, b);
    let x = run_op(u, c, b, Op::Step { to: Place::Reg(11), up: true }, at + 36);
    lemma_onward(u, c, m, b, x);
    x
}

#[verifier::rlimit(40)]
proof fn run_any(u: Fpu, c: Seq<u8>, at: int, m: Cpu) -> (x: Cpu)
    requires
        copy_stands(c, at),
        m.ip == at,
    ensures
        reaches(u, c, m, x),
        m.regs[2] == 0 ==> x.ip == at + 27 && x.regs == m.regs,
        m.regs[2] != 0 ==> x.ip == at + 7 && x.regs == m.regs.insert(1, 0),
        x.mem == m.mem,
{
    decode_open(c, at);
    let v = m.regs[2];
    assert(v & v == v) by (bit_vector);
    let a = run_op(
        u,
        c,
        m,
        Op::Arith {
            f: Alu::Both,
            wide: true,
            keep: false,
            to: Place::Reg(2),
            from: Place::Reg(2),
        },
        at + 3,
    );
    let b = run_op(u, c, a, Op::JumpIf { cc: 4, d: 22 }, at + 5);
    lemma_onward(u, c, m, a, b);
    if v == 0 {
        b
    } else {
        let x = run_zero(u, c, b);
        lemma_onward(u, c, m, b, x);
        x
    }
}

/// An argument's `rdx` bytes go from `r8` into the object in `rax`, behind its
/// header; the object, which is on top of the stack, goes into its place in
/// the array, one word for each argument behind the length; and the index goes
/// on.
#[verifier::spinoff_prover]
#[verifier::rlimit(40)]
pub proof fn arguments_are_copied(u: Fpu, c: Seq<u8>, s: Emit, m: Cpu) -> (x: Cpu)
    requires
        agrees(c, s.code.len() as int, argv_copy(s).code),
        m.ip == s.code.len(),
        m.regs[2] < 0x8000_0000_0000_0000,
        m.regs[8] + m.regs[2] < 0x1_0000_0000_0000_0000,
        m.regs[0] + m.regs[2] + 16 < 0x1_0000_0000_0000_0000,
        m.regs[8] + m.regs[2] <= m.regs[0] + 16 || m.regs[0] + 16 + m.regs[2] <= m.regs[8],
        m.regs[4] + 8 < 0x1_0000_0000_0000_0000,
        m.regs[7] + 8 * m.regs[11] + 8 < 0x1_0000_0000_0000_0000,
    ensures
        reaches(u, c, m, x),
        x.ip == argv_copy(s).code.len(),
        x.regs[4] == m.regs[4] + 8,
        x.regs[7] == m.regs[7],
        x.regs[9] == m.regs[9],
        x.regs[11] == m.regs[11] + 1,
        exists|mem: Map<int, u8>| #[trigger]
            copied(m.mem, mem, m.regs[0] + 16, m.regs[8] as int, m.regs[2] as int) && x.mem
                == write64(
                mem,
                m.regs[7] + 8 * m.regs[11] + 8,
                read64(mem, m.regs[4] as int),
            ),
{
    let at = s.code.len() as int;
    let e = argv_copy(s).code;
    assert(le32(16) =~= seq![16u8, 0, 0, 0]);
    assert(e =~= s.code + copy_bytes());
    assert(copy_stands(c, at)) by {
        assert forall|j: int| 0 <= j < 36 implies c[at + j] == #[trigger] copy_bytes()[j] by {
            assert(e[at + j] == copy_bytes()[j]);
        }
    }
    let a = run_any(u, c, at, m);
    let b = if m.regs[2] == 0 {
        a
    } else {
        let b = run_bytes(u, c, at, a);
        lemma_onward(u, c, m, a, b);
        b
    };
    assert(copied(m.mem, b.mem, m.regs[0] + 16, m.regs[8] as int, m.regs[2] as int));
    let x = run_close(u, c, at, b);
    lemma_onward(u, c, m, b, x);
    x
}

// ---- the object

/// The bytes of the part for one object, but for the distance of its call.
spec fn object_bytes() -> Seq<u8> {
    seq![0x4B, 0x8B, 0x74, 0xD9, 0x08, 0x49, 0x89, 0xF0] + length_bytes() + seq![
        0x48,
        0x8D,
        0x72,
        0x10,
        0x48,
        0x83,
        0xEC,
        0x08,
        0xE8,
        0,
        0,
        0,
        0,
        0x48,
        0x83,
        0xC4,
        0x08,
        0x50,
    ] + length_bytes() + seq![0x58, 0x48, 0x89, 0x10, 0xC7, 0x40, 0x08, 1, 0, 0, 0, 0x50]
}

/// Whether `c` has the code for one object from `at` on, but for the distance
/// of the call.
pub open spec fn object_stands(c: Seq<u8>, s: Emit) -> bool {
    let at = s.code.len() as int;
    &&& argv_object(s).code.len() <= c.len()
    &&& forall|i: int|
        at <= i < argv_object(s).code.len() && !(at + 32 <= i < at + 36) ==> #[trigger] c[i]
            == argv_object(s).code[i]
}

#[verifier::spinoff_prover]
#[verifier::rlimit(40)]
proof fn lemma_object(s: Emit)
    ensures
        argv_object(s).code == s.code + object_bytes(),
        object_bytes().len() == 68,
{
    lemma_numbers();
    assert(le32(1) =~= seq![1u8, 0, 0, 0]);
    assert(argv_object(s).code =~= s.code + object_bytes());
}

spec fn pieces_stand(c: Seq<u8>, at: int) -> bool {
    forall|j: int| 0 <= j < 68 && !(32 <= j < 36) ==> c[at + j] == #[trigger] object_bytes()[j]
}

proof fn lemma_pieces(c: Seq<u8>, s: Emit)
    requires
        object_stands(c, s),
    ensures
        pieces_stand(c, s.code.len() as int),
        argv_object(s).code.len() == s.code.len() + 68,
{
    let at = s.code.len() as int;
    let e = argv_object(s).code;
    lemma_object(s);
    assert forall|j: int| 0 <= j < 68 && !(32 <= j < 36) implies c[at + j]
        == #[trigger] object_bytes()[j] by {
        assert(e[at + j] == object_bytes()[j]);
        assert(c[at + j] == e[at + j]);
    }
}

proof fn lemma_measure(c: Seq<u8>, at: int)
    requires
        pieces_stand(c, at),
    ensures
        length_stands(c, at + 8),
        length_stands(c, at + 41),
{
    assert forall|j: int| 0 <= j < 15 implies c[at + 8 + j] == #[trigger] length_bytes()[j] by {
        assert(object_bytes()[8 + j] == length_bytes()[j]);
        assert(c[at + (8 + j)] == object_bytes()[8 + j]);
    }
    assert forall|j: int| 0 <= j < 15 implies c[at + 41 + j] == #[trigger] length_bytes()[j] by {
        assert(object_bytes()[41 + j] == length_bytes()[j]);
        assert(c[at + (41 + j)] == object_bytes()[41 + j]);
    }
}

proof fn decode_fetch(c: Seq<u8>, at: int)
    requires
        pieces_stand(c, at),
    ensures
        decode(c, at) == (
            Op::Mov {
                to: Place::Reg(6),
                from: Place::Mem { base: 9, index: 11, scale: 8, disp: 8 },
            },
            at + 5,
        ),
        decode(c, at + 5) == (Op::Mov { to: Place::Reg(8), from: Place::Reg(6) }, at + 8),
        decode(c, at + 23) == (
            Op::Lea { to: 6, from: Place::Mem { base: 2, index: -1, scale: 1, disp: 16 } },
            at + 27,
        ),
        decode(c, at + 27) == (
            Op::Arith {
                f: Alu::Minus,
                wide: true,
                keep: true,
                to: Place::Reg(4),
                from: Place::Imm(8),
            },
            at + 31,
        ),
        c[at + 31] == 0xE8,
{
    let b = object_bytes();
    assert(c[at + 0] == b[0] && c[at + 1] == b[1] && c[at + 2] == b[2] && c[at + 3] == b[3] && c[at
        + 4] == b[4] && c[at + 5] == b[5] && c[at + 6] == b[6] && c[at + 7] == b[7]);
    assert(c[at + 23] == b[23] && c[at + 24] == b[24] && c[at + 25] == b[25] && c[at + 26] == b[26]
        && c[at + 27] == b[27] && c[at + 28] == b[28] && c[at + 29] == b[29] && c[at + 30] == b[30]
        && c[at + 31] == b[31]);
    assert(rex(true, false, true) == 0x49 && rex(true, false, false) == 0x48);
    assert(modrm(3, 6, 0) == 0xF0 && modrm(1, 6, 2) == 0x72 && modrm(3, 5, 4) == 0xEC);
    lemma_rex(c, at + 5, true, false, true);
    lemma_reg_operand(c, prefixes(c, at + 5), at + 7, 6, 0);
    lemma_rex(c, at + 23, true, false, false);
    lemma_modrm(1, 6, 2);
    lemma_rex(c, at + 27, true, false, false);
    lemma_reg_operand(c, prefixes(c, at + 27), at + 29, 5, 4);
    assert(signed8(8) == 8 && signed8(16) == 16 && wrap64(8) == 8);
    reveal(decode);
}

/// An argument's object is asked of the allocator: a header of 16 bytes and
/// as many as the argument has before its zero.
#[verifier::spinoff_prover]
#[verifier::rlimit(40)]
pub proof fn objects_have_room_for_their_text(
    u: Fpu,
    c: Seq<u8>,
    s: Emit,
    m: Cpu,
    n: int,
) -> (y: Cpu)
    requires
        object_stands(c, s),
        m.ip == s.code.len(),
        m.regs[9] + 8 * m.regs[11] + 8 < 0x1_0000_0000_0000_0000,
        m.regs[4] >= 8,
        ({
            let p = read64(m.mem, m.regs[9] + 8 * m.regs[11] + 8);
            text_length(m.mem, p as int, n) && p + n + 16 < 0x1_0000_0000_0000_0000
        }),
    ensures
        reaches(u, c, m, y),
        y.ip == s.code.len() + 31,
        c[y.ip] == 0xE8,
        argv_object(s).calls == s.calls.push(((y.ip + 1) as usize, CallTarget::HelperAlloc)),
        y.regs[6] == n + 16,
        y.regs[8] == read64(m.mem, m.regs[9] + 8 * m.regs[11] + 8),
        y.regs[4] == m.regs[4] - 8,
        y.regs[7] == m.regs[7],
        y.regs[9] == m.regs[9],
        y.regs[11] == m.regs[11],
        y.mem == m.mem,
{
    let at = s.code.len() as int;
    lemma_pieces(c, s);
    lemma_measure(c, at);
    decode_fetch(c, at);
    assert(wrap64(m.regs[9] + m.regs[11] * 8 + 8) == m.regs[9] + 8 * m.regs[11] + 8);
    let a = run_mov(
        u,
        c,
        m,
        6,
        Place::Mem { base: 9, index: 11, scale: 8, disp: 8 },
        at + 5,
    );
    let b = run_mov(u, c, a, 8, Place::Reg(6), at + 8);
    lemma_onward(u, c, m, a, b);
    decode_length(c, at + 8);
    let d = run_rdx(u, c, b);
    lemma_onward(u, c, m, b, d);
    let e = run_length_from(u, c, at + 8, d, n);
    lemma_onward(u, c, m, d, e);
    let f = run_room(u, c, e, n);
    lemma_onward(u, c, m, e, f);
    let y = run_lower(u, c, f);
    lemma_onward(u, c, m, f, y);
    y
}

proof fn run_room(u: Fpu, c: Seq<u8>, m: Cpu, n: int) -> (x: Cpu)
    requires
        decode(c, m.ip) == (
            Op::Lea { to: 6, from: Place::Mem { base: 2, index: -1, scale: 1, disp: 16 } },
            m.ip + 4,
        ),
        m.regs[2] == n,
        0 <= n,
        n + 16 < 0x1_0000_0000_0000_0000,
    ensures
        reaches(u, c, m, x),
        x.ip == m.ip + 4,
        x.regs == m.regs.insert(6, (n + 16) as u64),
        x.mem == m.mem,
{
    assert(wrap64(n + 0 + 16) == n + 16);
    run_op(
        u,
        c,
        m,
        Op::Lea { to: 6, from: Place::Mem { base: 2, index: -1, scale: 1, disp: 16 } },
        m.ip + 4,
    )
}

proof fn run_lower(u: Fpu, c: Seq<u8>, m: Cpu) -> (x: Cpu)
    requires
        decode(c, m.ip) == (
            Op::Arith {
                f: Alu::Minus,
                wide: true,
                keep: true,
                to: Place::Reg(4),
                from: Place::Imm(8),
            },
            m.ip + 4,
        ),
        m.regs[4] >= 8,
    ensures
        reaches(u, c, m, x),
        x.ip == m.ip + 4,
        x.regs == m.regs.insert(4, (m.regs[4] - 8) as u64),
        x.mem == m.mem,
{
    assert(wrap64(m.regs[4] - 8) == m.regs[4] - 8);
    run_op(
        u,
        c,
        m,
        Op::Arith {
            f: Alu::Minus,
            wide: true,
            keep: true,
            to: Place::Reg(4),
            from: Place::Imm(8),
        },
        m.ip + 4,
    )
}

proof fn decode_header(c: Seq<u8>, at: int)
    requires
        pieces_stand(c, at),
    ensures
        decode(c, at + 36) == (
            Op::Arith {
                f: Alu::Plus,
                wide: true,
                keep: true,
                to: Place::Reg(4),
                from: Place::Imm(8),
            },
            at + 40,
        ),
        c[at + 40] == 0x50,
        decode(c, at + 56) == (Op::Pop(0), at + 57),
        decode(c, at + 57) == (
            Op::Mov {
                to: Place::Mem { base: 0, index: -1, scale: 1, disp: 0 },
                from: Place::Reg(2),
            },
            at + 60,
        ),
        decode(c, at + 60) == (
            Op::StoreWord { to: Place::Mem { base: 0, index: -1, scale: 1, disp: 8 }, v: 1 },
            at + 67,
        ),
        c[at + 67] == 0x50,
{
    let b = object_bytes();
    assert(c[at + 36] == b[36] && c[at + 37] == b[37] && c[at + 38] == b[38] && c[at + 39] == b[39]
        && c[at + 40] == b[40]);
    assert(c[at + 56] == b[56] && c[at + 57] == b[57] && c[at + 58] == b[58] && c[at + 59] == b[59]
        && c[at + 60] == b[60] && c[at + 61] == b[61] && c[at + 62] == b[62] && c[at + 63] == b[63]
        && c[at + 64] == b[64] && c[at + 65] == b[65] && c[at + 66] == b[66] && c[at + 67]
        == b[67]);
    assert(rex(true, false, false) == 0x48);
    assert(modrm(3, 0, 4) == 0xC4 && modrm(0, 2, 0) == 0x10 && modrm(1, 0, 0) == 0x40);
    lemma_rex(c, at + 36, true, false, false);
    lemma_reg_operand(c, prefixes(c, at + 36), at + 38, 0, 4);
    lemma_plain(c, at + 56);
    lemma_rex(c, at + 57, true, false, false);
    lemma_modrm(0, 2, 0);
    lemma_plain(c, at + 60);
    lemma_modrm(1, 0, 0);
    assert(u32_at(c, at + 63) == 1);
    assert(signed8(8) == 8 && wrap64(8) == 8);
    reveal(decode);
}

proof fn run_raise(u: Fpu, c: Seq<u8>, m: Cpu) -> (x: Cpu)
    requires
        decode(c, m.ip) == (
            Op::Arith {
                f: Alu::Plus,
                wide: true,
                keep: true,
                to: Place::Reg(4),
                from: Place::Imm(8),
            },
            m.ip + 4,
        ),
        m.regs[4] + 8 < 0x1_0000_0000_0000_0000,
    ensures
        reaches(u, c, m, x),
        x.ip == m.ip + 4,
        x.regs == m.regs.insert(4, (m.regs[4] + 8) as u64),
        x.mem == m.mem,
{
    assert(wrap64(m.regs[4] + 8) == m.regs[4] + 8);
    run_op(
        u,
        c,
        m,
        Op::Arith {
            f: Alu::Plus,
            wide: true,
            keep: true,
            to: Place::Reg(4),
            from: Place::Imm(8),
        },
        m.ip + 4,
    )
}

/// Memory with the header of a string object at `o`: its length, and a
/// reference count of 1.
pub open spec fn with_header(mem: Map<int, u8>, o: int, n: u64) -> Map<int, u8> {
    write64(mem, o, n).insert(o + 8, 1).insert(o + 9, 0).insert(o + 10, 0).insert(o + 11, 0)
}

#[verifier::spinoff_prover]
#[verifier::rlimit(40)]
proof fn run_header(u: Fpu, c: Seq<u8>, at: int, m: Cpu) -> (x: Cpu)
    requires
        pieces_stand(c, at),
        m.ip == at + 57,
        m.regs[0] + 12 < 0x1_0000_0000_0000_0000,
    ensures
        reaches(u, c, m, x),
        x.ip == at + 67,
        x.regs == m.regs,
        x.mem == with_header(m.mem, m.regs[0] as int, m.regs[2]),
{
    decode_header(c, at);
    assert(wrap64(m.regs[0] + 0 + 8) == m.regs[0] + 8);
    assert(le32(1) =~= seq![1u8, 0, 0, 0]);
    let a = run_op(
        u,
        c,
        m,
        Op::Mov {
            to: Place::Mem { base: 0, index: -1, scale: 1, disp: 0 },
            from: Place::Reg(2),
        },
        at + 60,
    );
    let x = run_op(
        u,
        c,
        a,
        Op::StoreWord { to: Place::Mem { base: 0, index: -1, scale: 1, disp: 8 }, v: 1 },
        at + 67,
    );
    lemma_onward(u, c, m, a, x);
    x
}

/// When the allocator comes back with an object, its header is set: the length
/// of the argument, and a reference count of 1; and the object is in `rax` and
/// on top of the stack.
#[verifier::spinoff_prover]
#[verifier::rlimit(40)]
pub proof fn objects_get_their_header(u: Fpu, c: Seq<u8>, s: Emit, z: Cpu, n: int) -> (x: Cpu)
    requires
        object_stands(c, s),
        z.ip == s.code.len() + 36,
        z.regs[4] + 8 < 0x1_0000_0000_0000_0000,
        z.regs[0] + 12 < 0x1_0000_0000_0000_0000,
        text_length(write64(z.mem, z.regs[4] as int, z.regs[0]), z.regs[8] as int, n),
        z.regs[8] + n < 0x1_0000_0000_0000_0000,
    ensures
        reaches(u, c, z, x),
        x.ip == argv_object(s).code.len(),
        x.regs[0] == z.regs[0],
        x.regs[2] == n,
        x.regs[4] == z.regs[4],
        x.regs[7] == z.regs[7],
        x.regs[8] == z.regs[8],
        x.regs[9] == z.regs[9],
        x.regs[11] == z.regs[11],
        ({
            let mem = write64(z.mem, z.regs[4] as int, z.regs[0]);
            x.mem == write64(
                with_header(mem, z.regs[0] as int, n as u64),
                z.regs[4] as int,
                z.regs[0],
            )
        }),
{
    let at = s.code.len() as int;
    let o = z.regs[0];
    lemma_pieces(c, s);
    lemma_measure(c, at);
    decode_header(c, at);
    let a = run_raise(u, c, z);
    let b = run_push(u, c, a, 0);
    lemma_onward(u, c, z, a, b);
    let mem = write64(z.mem, z.regs[4] as int, o);
    assert(b.mem == mem);
    decode_length(c, at + 41);
    let d = run_rdx(u, c, b);
    lemma_onward(u, c, z, b, d);
    let e = run_length_from(u, c, at + 41, d, n);
    lemma_onward(u, c, z, d, e);
    lemma_read_written(z.mem, z.regs[4] as int, o);
    let f = run_take(u, c, e);
    lemma_onward(u, c, z, e, f);
    let g = run_header(u, c, at, f);
    lemma_onward(u, c, z, f, g);
    let x = run_push(u, c, g, 0);
    lemma_onward(u, c, z, g, x);
    x
}

proof fn run_take(u: Fpu, c: Seq<u8>, m: Cpu) -> (x: Cpu)
    requires
        decode(c, m.ip) == (Op::Pop(0), m.ip + 1),
        m.regs[4] + 8 < 0x1_0000_0000_0000_0000,
    ensures
        reaches(u, c, m, x),
        x.ip == m.ip + 1,
        x.regs == m.regs.insert(4, (m.regs[4] + 8) as u64).insert(
            0,
            read64(m.mem, m.regs[4] as int),
        ),
        x.mem == m.mem,
{
    assert(wrap64(m.regs[4] + 8) == m.regs[4] + 8);
    run_op(u, c, m, Op::Pop(0), m.ip + 1)
}

// ---- one argument after the other

spec fn turn_bytes(back: bool) -> Seq<u8> {
    if back {
        seq![0x4Cu8, 0x3B, 0x1F, 0x0F, 0x8C, 0x8F, 0xFF, 0xFF, 0xFF]
    } else {
        seq![0x4Cu8, 0x3B, 0x1F, 0x0F, 0x8D, 0x71, 0, 0, 0]
    }
}

/// Where the parts of the loop are: the test before it, the part for one
/// object, the test behind that, and the end.
#[verifier::spinoff_prover]
#[verifier::rlimit(40)]
proof fn lemma_loop(s: Emit, d: Loc)
    ensures
        ({
            let at = s.code.len() as int;
            let e = argv_code(s, d).code;
            let t = Emit { code: e.take(at + 196), ..argv_code(s, d) };
            &&& at + 196 <= e.len()
            &&& e.subrange(at + 70, at + 79) == turn_bytes(false)
            &&& e.subrange(at + 183, at + 192) == turn_bytes(true)
            &&& e.subrange(at + 192, at + 196) == seq![0x48u8, 0x89, 0xF8, 0x5C]
            &&& t.put(RAX, d).code == e
        }),
{
    let at = s.code.len() as int;
    lemma_numbers();
    assert(le32(0x71) =~= seq![0x71u8, 0, 0, 0]);
    assert(le32(0xFFFF_FF8F) =~= seq![0x8Fu8, 0xFF, 0xFF, 0xFF]);
    assert(le32(16) =~= seq![16u8, 0, 0, 0]);
    assert(rex(true, true, false) == 0x4C && modrm(0, 3, 7) == 0x1F);
    let h = argv_head(s);
    lemma_head(s);
    let a = h.raw(seq![rex(true, true, false), 0x3B, modrm(0, 3, 7)]).raw(seq![0x0F, 0x8D]).imm32(
        0x71,
    );
    assert(a.code =~= h.code + turn_bytes(false));
    lemma_object(a);
    let o = argv_object(a);
    let k = argv_copy(o);
    assert(k.code =~= o.code + copy_bytes());
    let b = k.raw(seq![rex(true, true, false), 0x3B, modrm(0, 3, 7)]).raw(seq![0x0F, 0x8C]).imm32(
        0xFFFF_FF8F,
    );
    assert(b.code =~= k.code + turn_bytes(true));
    let f = b.raw(seq![0x48, 0x89, 0xF8]).raw(seq![0x5C]);
    assert(f.code =~= b.code + seq![0x48u8, 0x89, 0xF8, 0x5C]);
    let e = argv_code(s, d).code;
    assert(e == f.put(RAX, d).code);
    assert(f.code.len() == at + 196);
    assert(agrees(e, 0, e));
    lemma_put_front(e, 0, f, RAX, d);
    assert(e.take(at + 196) =~= f.code);
    assert(e.subrange(at + 70, at + 79) =~= turn_bytes(false)) by {
        assert forall|j: int| 0 <= j < 9 implies e.subrange(at + 70, at + 79)[j] == turn_bytes(
            false,
        )[j] by {
            assert(a.code[at + 70 + j] == turn_bytes(false)[j]);
            assert(o.code[at + 70 + j] == a.code[at + 70 + j]);
            assert(k.code[at + 70 + j] == o.code[at + 70 + j]);
            assert(b.code[at + 70 + j] == k.code[at + 70 + j]);
            assert(f.code[at + 70 + j] == b.code[at + 70 + j]);
            assert(e[at + 70 + j] == f.code[at + 70 + j]);
        }
    }
    assert(e.subrange(at + 183, at + 192) =~= turn_bytes(true)) by {
        assert forall|j: int| 0 <= j < 9 implies e.subrange(at + 183, at + 192)[j] == turn_bytes(
            true,
        )[j] by {
            assert(b.code[at + 183 + j] == turn_bytes(true)[j]);
            assert(f.code[at + 183 + j] == b.code[at + 183 + j]);
            assert(e[at + 183 + j] == f.code[at + 183 + j]);
        }
    }
    assert(e.subrange(at + 192, at + 196) =~= seq![0x48u8, 0x89, 0xF8, 0x5C]) by {
        assert forall|j: int| 0 <= j < 4 implies e.subrange(at + 192, at + 196)[j] == seq![
            0x48u8,
            0x89,
            0xF8,
            0x5C,
        ][j] by {
            assert(e[at + 192 + j] == f.code[at + 192 + j]);
        }
    }
}

proof fn decode_turns(c: Seq<u8>, at: int, back: bool)
    requires
        forall|j: int| 0 <= j < 9 ==> c[at + j] == #[trigger] turn_bytes(back)[j],
    ensures
        decode(c, at) == (
            Op::Arith {
                f: Alu::Minus,
                wide: true,
                keep: false,
                to: Place::Reg(11),
                from: Place::Mem { base: 7, index: -1, scale: 1, disp: 0 },
            },
            at + 3,
        ),
        back ==> decode(c, at + 3) == (Op::JumpIf { cc: 12, d: -113 }, at + 9),
        !back ==> decode(c, at + 3) == (Op::JumpIf { cc: 13, d: 113 }, at + 9),
{
    let b = turn_bytes(back);
    assert(c[at + 0] == b[0] && c[at + 1] == b[1] && c[at + 2] == b[2] && c[at + 3] == b[3] && c[at
        + 4] == b[4] && c[at + 5] == b[5] && c[at + 6] == b[6] && c[at + 7] == b[7] && c[at + 8]
        == b[8]);
    assert(rex(true, true, false) == 0x4C && modrm(0, 3, 7) == 0x1F);
    lemma_rex(c, at, true, true, false);
    lemma_modrm(0, 3, 7);
    lemma_plain(c, at + 3);
    if back {
        assert(u32_at(c, at + 5) == 0xFFFF_FF8F);
        assert(signed32(0xFFFF_FF8F) == -113);
    } else {
        assert(u32_at(c, at + 5) == 113);
    }
    reveal(decode);
}

#[verifier::spinoff_prover]
#[verifier::rlimit(40)]
proof fn run_turns(u: Fpu, c: Seq<u8>, at: int, back: bool, m: Cpu) -> (x: Cpu)
    requires
        forall|j: int| 0 <= j < 9 ==> c[at + j] == #[trigger] turn_bytes(back)[j],
        m.ip == at,
        m.regs[11] < 0x8000_0000_0000_0000,
        read64(m.mem, m.regs[7] as int) < 0x8000_0000_0000_0000,
    ensures
        reaches(u, c, m, x),
        x == (Cpu { ip: x.ip, flags: x.flags, ..m }),
        ({
            let more = m.regs[11] < read64(m.mem, m.regs[7] as int);
            &&& back ==> x.ip == if more {
                at + 9 - 113
            } else {
                at + 9
            }
            &&& !back ==> x.ip == if more {
                at + 9
            } else {
                at + 9 + 113
            }
        }),
{
    decode_turns(c, at, back);
    let n = read64(m.mem, m.regs[7] as int);
    lemma_below(m.regs[11], n);
    let a = run_op(
        u,
        c,
        m,
        Op::Arith {
            f: Alu::Minus,
            wide: true,
            keep: false,
            to: Place::Reg(11),
            from: Place::Mem { base: 7, index: -1, scale: 1, disp: 0 },
        },
        at + 3,
    );
    let x = if back {
        run_op(u, c, a, Op::JumpIf { cc: 12, d: -113 }, at + 9)
    } else {
        run_op(u, c, a, Op::JumpIf { cc: 13, d: 113 }, at + 9)
    };
    lemma_onward(u, c, m, a, x);
    x
}

/// The part for one argument is run as long as the index is below the count
/// in the first word of the array, before the first argument and behind each
/// one; nothing else changes.
pub proof fn every_argument_gets_its_turn(
    u: Fpu,
    c: Seq<u8>,
    s: Emit,
    d: Loc,
    back: bool,
    m: Cpu,
) -> (x: Cpu)
    requires
        ({
            let at = s.code.len() as int;
            &&& back ==> agrees(c, at + 183, argv_code(s, d).code.take(at + 192))
            &&& !back ==> agrees(c, at + 70, argv_code(s, d).code.take(at + 79))
        }),
        m.ip == s.code.len() + if back {
            183int
        } else {
            70
        },
        m.regs[11] < 0x8000_0000_0000_0000,
        read64(m.mem, m.regs[7] as int) < 0x8000_0000_0000_0000,
    ensures
        reaches(u, c, m, x),
        x == (Cpu { ip: x.ip, flags: x.flags, ..m }),
        x.ip == s.code.len() + if m.regs[11] < read64(m.mem, m.regs[7] as int) {
            79int
        } else {
            192
        },
{
    let at = s.code.len() as int;
    let e = argv_code(s, d).code;
    let p = if back {
        at + 183
    } else {
        at + 70
    };
    lemma_loop(s, d);
    assert forall|j: int| 0 <= j < 9 implies c[p + j] == #[trigger] turn_bytes(back)[j] by {
        assert(e.subrange(p, p + 9)[j] == e[p + j]);
        assert(e.take(p + 9)[p + j] == e[p + j]);
    }
    run_turns(u, c, p, back, m)
}

/// Behind the last argument, the array goes into the destination, and the
/// stack pointer is the one that was on the stack.
#[verifier::spinoff_prover]
#[verifier::rlimit(40)]
pub proof fn arrays_come_home(u: Fpu, c: Seq<u8>, s: Emit, d: Loc, m: Cpu) -> (x: Cpu)
    requires
        agrees(c, s.code.len() as int + 192, argv_code(s, d).code),
        m.ip == s.code.len() + 192,
        in_frame(m, d),
    ensures
        reaches(u, c, m, x),
        x.ip == argv_code(s, d).code.len(),
        becomes(
            Cpu { regs: m.regs.insert(4, read64(m.mem, m.regs[4] as int)), ..m },
            x,
            d,
            m.regs[7],
        ),
{
    let at = s.code.len() as int + 192;
    let e = argv_code(s, d).code;
    lemma_loop(s, d);
    assert(e.subrange(at, at + 4)[0] == e[at] && e.subrange(at, at + 4)[1] == e[at + 1]
        && e.subrange(at, at + 4)[2] == e[at + 2] && e.subrange(at, at + 4)[3] == e[at + 3]);
    assert(c[at] == e[at] && c[at + 1] == e[at + 1] && c[at + 2] == e[at + 2] && c[at + 3] == e[at
        + 3]);
    assert(modrm(3, 7, 0) == 0xF8);
    decode_copy(c, at, 7, 0);
    let a = run_mov(u, c, m, 0, Place::Reg(7), at + 3);
    lemma_plain(c, at + 3);
    assert(decode(c, at + 3) == (Op::Pop(4), at + 4)) by {
        reveal(decode);
    }
    let b = run_op(u, c, a, Op::Pop(4), at + 4);
    lemma_onward(u, c, m, a, b);
    let t = Emit { code: e.take(at + 4), ..argv_code(s, d) };
    let w = Cpu { regs: m.regs.insert(4, read64(m.mem, m.regs[4] as int)), ..m };
    assert(quiet(w, b));
    let x = run_put(u, c, t, RAX, d, b);
    lemma_onward(u, c, m, b, x);
    lemma_becomes(w, b, x, d, m.regs[7]);
    x
}

} // verus!
