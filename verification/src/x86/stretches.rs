//! What the processor does with the code that works on stretches of memory,
//! byte by byte.
use crate::bytes::{le32, u32_at};
use crate::ir::Instr;
use crate::x86::arithmetic::run_op;
use crate::x86::emit::{modrm, rex, Emit, R10, R11, R8, RAX};
use crate::x86::fragments::{
    agrees, becomes, in_frame, lemma_becomes, lemma_front, lemma_get_front, lemma_modrm,
    lemma_plain, lemma_put_front, lemma_quiet, lemma_reg_operand, lemma_rex, quiet, run_get,
    run_put, value,
};
use crate::x86::instrs::{home, instr_code, mem_copy_loop, mem_equal_loop, Cx};
use crate::x86::machine::{
    decode, lemma_onward, prefixes, reaches, signed8, Alu, Cpu, Fpu, Op, Place,
};
use crate::x86::regalloc::Loc;
use vstd::prelude::*;

verus! {

// ---- the instructions of the loops, by their bytes

spec fn at_base(r: int) -> Place {
    Place::Mem { base: r, index: -1, scale: 1, disp: 0 }
}

proof fn decode_test(c: Seq<u8>, at: int)
    requires
        c[at] == 0x4D && c[at + 1] == 0x85 && c[at + 2] == 0xC0,
    ensures
        decode(c, at) == (
            Op::Arith {
                f: Alu::Both,
                wide: true,
                keep: false,
                to: Place::Reg(8),
                from: Place::Reg(8),
            },
            at + 3,
        ),
{
    assert(rex(true, true, true) == 0x4D && modrm(3, 0, 0) == 0xC0);
    lemma_rex(c, at, true, true, true);
    lemma_reg_operand(c, prefixes(c, at), at + 2, 0, 0);
    reveal(decode);
}

proof fn decode_short(c: Seq<u8>, at: int)
    requires
        c[at] == 0x74 || c[at] == 0x75,
    ensures
        decode(c, at) == (
            Op::JumpIf { cc: c[at] - 0x70, d: signed8(c[at + 1]) },
            at + 2,
        ),
{
    lemma_plain(c, at);
    reveal(decode);
}

proof fn decode_load(c: Seq<u8>, at: int)
    requires
        c[at] == 0x49 && c[at + 1] == 0x0F && c[at + 2] == 0xB6 && c[at + 3] == 0x03,
    ensures
        decode(c, at) == (Op::Widen { to: 0, from: at_base(11) }, at + 4),
{
    assert(rex(true, false, true) == 0x49 && modrm(0, 0, 3) == 0x03);
    lemma_rex(c, at, true, false, true);
    lemma_modrm(0, 0, 3);
    reveal(decode);
}

proof fn decode_store(c: Seq<u8>, at: int)
    requires
        c[at] == 0x49 && (c[at + 1] == 0x88 || c[at + 1] == 0x38) && c[at + 2] == 0x02,
    ensures
        c[at + 1] == 0x88 ==> decode(c, at) == (Op::StoreByte { to: at_base(10), from: 0 }, at + 3),
        c[at + 1] == 0x38 ==> decode(c, at) == (Op::CompareByte { a: at_base(10), b: 0 }, at + 3),
{
    assert(rex(true, false, true) == 0x49 && modrm(0, 0, 2) == 0x02);
    lemma_rex(c, at, true, false, true);
    lemma_modrm(0, 0, 2);
    reveal(decode);
}

proof fn decode_steps(c: Seq<u8>, at: int)
    requires
        c[at] == 0x49 && c[at + 1] == 0xFF && c[at + 2] == 0xC2,
        c[at + 3] == 0x49 && c[at + 4] == 0xFF && c[at + 5] == 0xC3,
        c[at + 6] == 0x49 && c[at + 7] == 0xFF && c[at + 8] == 0xC8,
    ensures
        decode(c, at) == (Op::Step { to: Place::Reg(10), up: true }, at + 3),
        decode(c, at + 3) == (Op::Step { to: Place::Reg(11), up: true }, at + 6),
        decode(c, at + 6) == (Op::Step { to: Place::Reg(8), up: false }, at + 9),
{
    assert(rex(true, false, true) == 0x49);
    assert(modrm(3, 0, 2) == 0xC2 && modrm(3, 0, 3) == 0xC3 && modrm(3, 1, 0) == 0xC8);
    lemma_rex(c, at, true, false, true);
    lemma_rex(c, at + 3, true, false, true);
    lemma_rex(c, at + 6, true, false, true);
    lemma_reg_operand(c, prefixes(c, at), at + 2, 0, 2);
    lemma_reg_operand(c, prefixes(c, at + 3), at + 5, 0, 3);
    lemma_reg_operand(c, prefixes(c, at + 6), at + 8, 1, 0);
    reveal(decode);
}

proof fn lemma_same_bits(x: u64)
    ensures
        x & x == x,
{
    assert(x & x == x) by (bit_vector);
}

/// `test r8, r8`, and the jump behind it that is taken where `r8` is zero.
#[verifier::rlimit(40)]
proof fn run_check(u: Fpu, c: Seq<u8>, at: int, m: Cpu) -> (x: Cpu)
    requires
        c[at] == 0x4D && c[at + 1] == 0x85 && c[at + 2] == 0xC0 && c[at + 3] == 0x74 && c[at + 4]
            < 0x80,
        m.ip == at,
    ensures
        reaches(u, c, m, x),
        x.ip == at + 5 + if m.regs[8] == 0 {
            c[at + 4] as int
        } else {
            0
        },
        x.regs == m.regs,
        x.mem == m.mem,
{
    decode_test(c, at);
    lemma_same_bits(m.regs[8]);
    let y = run_op(
        u,
        c,
        m,
        Op::Arith {
            f: Alu::Both,
            wide: true,
            keep: false,
            to: Place::Reg(8),
            from: Place::Reg(8),
        },
        at + 3,
    );
    decode_short(c, at + 3);
    let x = run_op(u, c, y, Op::JumpIf { cc: 4, d: c[at + 4] as int }, at + 5);
    lemma_onward(u, c, m, y, x);
    x
}

proof fn run_up(u: Fpu, c: Seq<u8>, m: Cpu, r: int) -> (x: Cpu)
    requires
        decode(c, m.ip) == (Op::Step { to: Place::Reg(r), up: true }, m.ip + 3),
        m.regs[r] < u64::MAX,
    ensures
        reaches(u, c, m, x),
        x.ip == m.ip + 3,
        x.regs == m.regs.insert(r, (m.regs[r] + 1) as u64),
        x.mem == m.mem,
{
    run_op(u, c, m, Op::Step { to: Place::Reg(r), up: true }, m.ip + 3)
}

proof fn run_down(u: Fpu, c: Seq<u8>, m: Cpu, r: int) -> (x: Cpu)
    requires
        decode(c, m.ip) == (Op::Step { to: Place::Reg(r), up: false }, m.ip + 3),
        m.regs[r] > 0,
    ensures
        reaches(u, c, m, x),
        x.ip == m.ip + 3,
        x.regs == m.regs.insert(r, (m.regs[r] - 1) as u64),
        x.mem == m.mem,
        x.flags.zf == (m.regs[r] == 1),
{
    run_op(u, c, m, Op::Step { to: Place::Reg(r), up: false }, m.ip + 3)
}

proof fn run_again(u: Fpu, c: Seq<u8>, m: Cpu) -> (x: Cpu)
    requires
        c[m.ip] == 0x75,
    ensures
        reaches(u, c, m, x),
        x.ip == m.ip + 2 + if m.flags.zf {
            0
        } else {
            signed8(c[m.ip + 1])
        },
        x.regs == m.regs,
        x.mem == m.mem,
{
    decode_short(c, m.ip);
    run_op(u, c, m, Op::JumpIf { cc: 5, d: signed8(c[m.ip + 1]) }, m.ip + 2)
}

/// Both addresses one on, the count one down, and the jump back where it is
/// not yet zero.
#[verifier::rlimit(40)]
proof fn run_advance(u: Fpu, c: Seq<u8>, at: int, m: Cpu) -> (x: Cpu)
    requires
        c[at] == 0x49 && c[at + 1] == 0xFF && c[at + 2] == 0xC2,
        c[at + 3] == 0x49 && c[at + 4] == 0xFF && c[at + 5] == 0xC3,
        c[at + 6] == 0x49 && c[at + 7] == 0xFF && c[at + 8] == 0xC8,
        c[at + 9] == 0x75 && c[at + 10] >= 0x80,
        m.ip == at,
        m.regs[8] > 0,
        m.regs[10] < u64::MAX,
        m.regs[11] < u64::MAX,
    ensures
        reaches(u, c, m, x),
        x.ip == at + 11 + if m.regs[8] > 1 {
            c[at + 10] - 0x100
        } else {
            0
        },
        x.regs[10] == m.regs[10] + 1,
        x.regs[11] == m.regs[11] + 1,
        x.regs[8] == m.regs[8] - 1,
        forall|q: int| q != 8 && q != 10 && q != 11 ==> #[trigger] x.regs[q] == m.regs[q],
        x.mem == m.mem,
{
    decode_steps(c, at);
    let a = run_up(u, c, m, 10);
    let b = run_up(u, c, a, 11);
    lemma_onward(u, c, m, a, b);
    let d = run_down(u, c, b, 8);
    lemma_onward(u, c, m, b, d);
    let x = run_again(u, c, d);
    lemma_onward(u, c, m, d, x);
    x
}

// ---- copying

spec fn copy_bytes() -> Seq<u8> {
    seq![
        0x4D, 0x85, 0xC0, 0x74, 0x12, 0x49, 0x0F, 0xB6, 0x03, 0x49, 0x88, 0x02, 0x49, 0xFF, 0xC2,
        0x49, 0xFF, 0xC3, 0x49, 0xFF, 0xC8, 0x75, 0xE9,
    ]
}

proof fn lemma_copy_bytes(c: Seq<u8>, s: Emit)
    requires
        agrees(c, s.code.len() as int, mem_copy_loop(s).code),
    ensures
        mem_copy_loop(s).code.len() == s.code.len() + 23,
        forall|j: int| 0 <= j < 23 ==> c[s.code.len() + j] == #[trigger] copy_bytes()[j],
{
    let e = mem_copy_loop(s).code;
    assert(e == s.code + copy_bytes());
    assert forall|j: int| 0 <= j < 23 implies c[s.code.len() + j] == #[trigger] copy_bytes()[j] by {
        assert(e[s.code.len() + j] == copy_bytes()[j]);
    }
}

/// Memory with `n` bytes from `src` on copied to `dst` on.
pub open spec fn copied(p: Map<int, u8>, q: Map<int, u8>, dst: int, src: int, n: int) -> bool {
    forall|a: int| #[trigger]
        q[a] == if dst <= a < dst + n {
            p[a - dst + src]
        } else {
            p[a]
        }
}

#[verifier::spinoff_prover]
#[verifier::rlimit(40)]
proof fn run_copy_body(u: Fpu, c: Seq<u8>, at: int, m: Cpu) -> (x: Cpu)
    requires
        forall|j: int| 0 <= j < 23 ==> c[at + j] == #[trigger] copy_bytes()[j],
        m.ip == at,
        m.regs[8] > 0,
        m.regs[10] < u64::MAX,
        m.regs[11] < u64::MAX,
    ensures
        reaches(u, c, m, x),
        x.ip == if m.regs[8] > 1 {
            at
        } else {
            at + 23
        },
        x.regs[10] == m.regs[10] + 1,
        x.regs[11] == m.regs[11] + 1,
        x.regs[8] == m.regs[8] - 1,
        quiet(m, Cpu { mem: m.mem, ..x }),
        x.mem == m.mem.insert(m.regs[10] as int, m.mem[m.regs[11] as int]),
{
    let b = copy_bytes();
    assert(c[at + 0] == b[0] && c[at + 1] == b[1] && c[at + 2] == b[2] && c[at + 3] == b[3] && c[at
        + 4] == b[4] && c[at + 5] == b[5] && c[at + 6] == b[6] && c[at + 7] == b[7] && c[at + 8]
        == b[8] && c[at + 9] == b[9] && c[at + 10] == b[10] && c[at + 11] == b[11]);
    assert(c[at + 12] == b[12] && c[at + 13] == b[13] && c[at + 14] == b[14] && c[at + 15] == b[15]
        && c[at + 16] == b[16] && c[at + 17] == b[17] && c[at + 18] == b[18] && c[at + 19] == b[19]
        && c[at + 20] == b[20] && c[at + 21] == b[21] && c[at + 22] == b[22]);
    let w = run_check(u, c, at, m);
    decode_load(c, at + 5);
    let y = run_widened(u, c, w);
    lemma_onward(u, c, m, w, y);
    decode_store(c, at + 9);
    let z = run_op(u, c, y, Op::StoreByte { to: at_base(10), from: 0 }, at + 12);
    lemma_onward(u, c, m, y, z);
    let x = run_advance(u, c, at + 12, z);
    lemma_onward(u, c, m, z, x);
    x
}

#[verifier::rlimit(40)]
proof fn run_copy(u: Fpu, c: Seq<u8>, at: int, m: Cpu) -> (x: Cpu)
    requires
        forall|j: int| 0 <= j < 23 ==> c[at + j] == #[trigger] copy_bytes()[j],
        m.ip == at,
        m.regs[10] + m.regs[8] <= u64::MAX,
        m.regs[11] + m.regs[8] <= u64::MAX,
        m.regs[10] <= m.regs[11] || m.regs[10] >= m.regs[11] + m.regs[8],
    ensures
        reaches(u, c, m, x),
        x.ip == at + 23,
        copied(m.mem, x.mem, m.regs[10] as int, m.regs[11] as int, m.regs[8] as int),
        quiet(m, Cpu { mem: m.mem, ..x }),
    decreases m.regs[8],
{
    if m.regs[8] == 0 {
        let b = copy_bytes();
        assert(c[at + 0] == b[0] && c[at + 1] == b[1] && c[at + 2] == b[2] && c[at + 3] == b[3]
            && c[at + 4] == b[4]);
        run_check(u, c, at, m)
    } else {
        let y = run_copy_body(u, c, at, m);
        let d = m.regs[10] as int;
        let s = m.regs[11] as int;
        let n = m.regs[8] as int;
        if n == 1 {
            y
        } else {
            let x = run_copy(u, c, at, y);
            lemma_onward(u, c, m, y, x);
            assert forall|a: int| #[trigger]
                x.mem[a] == if d <= a < d + n {
                    m.mem[a - d + s]
                } else {
                    m.mem[a]
                } by {
                if d < a < d + n {
                    assert(y.mem[a - d + s] == m.mem[a - d + s]);
                } else {
                    assert(x.mem[a] == y.mem[a]);
                }
            }
            x
        }
    }
}

/// Copying leaves, at the destination, the bytes that were at the source, and
/// changes nothing else in memory and no register that a value lives in; the
/// stretches may overlap where the destination is the lower one.
#[verifier::spinoff_prover]
#[verifier::rlimit(40)]
pub proof fn copies_move_bytes(
    u: Fpu,
    c: Seq<u8>,
    s: Emit,
    cx: Cx,
    loc: Seq<Loc>,
    i: Instr,
    m: Cpu,
) -> (x: Cpu)
    requires
        i is MemCpy,
        agrees(c, s.code.len() as int, instr_code(s, cx, loc, i).code),
        m.ip == s.code.len(),
        in_frame(m, home(loc, i->MemCpy_dst)),
        in_frame(m, home(loc, i->MemCpy_src)),
        in_frame(m, home(loc, i->MemCpy_len)),
        ({
            let d = value(m, home(loc, i->MemCpy_dst));
            let o = value(m, home(loc, i->MemCpy_src));
            let n = value(m, home(loc, i->MemCpy_len));
            &&& d + n <= u64::MAX
            &&& o + n <= u64::MAX
            &&& d <= o || d >= o + n
        }),
    ensures
        reaches(u, c, m, x),
        x.ip == instr_code(s, cx, loc, i).code.len(),
        copied(
            m.mem,
            x.mem,
            value(m, home(loc, i->MemCpy_dst)) as int,
            value(m, home(loc, i->MemCpy_src)) as int,
            value(m, home(loc, i->MemCpy_len)) as int,
        ),
        quiet(m, Cpu { mem: m.mem, ..x }),
{
    let d = home(loc, i->MemCpy_dst);
    let o = home(loc, i->MemCpy_src);
    let n = home(loc, i->MemCpy_len);
    let t = s.get(R10, d).get(R11, o).get(R8, n);
    assert(mem_copy_loop(t).code == t.code + copy_bytes());
    assert(agrees(c, s.code.len() as int, t.raw(copy_bytes()).code));
    lemma_front(c, s.code.len() as int, t, copy_bytes());
    let y = run_three(u, c, s, d, o, n, m);
    lemma_copy_bytes(c, t);
    let x = run_copy(u, c, t.code.len() as int, y);
    lemma_onward(u, c, m, y, x);
    x
}

#[verifier::rlimit(40)]
proof fn run_three(u: Fpu, c: Seq<u8>, s: Emit, a: Loc, b: Loc, d: Loc, m: Cpu) -> (y: Cpu)
    requires
        agrees(c, s.code.len() as int, s.get(R10, a).get(R11, b).get(R8, d).code),
        m.ip == s.code.len(),
        in_frame(m, a),
        in_frame(m, b),
        in_frame(m, d),
    ensures
        reaches(u, c, m, y),
        y.ip == s.get(R10, a).get(R11, b).get(R8, d).code.len(),
        s.code.len() <= y.ip,
        y.regs[10] == value(m, a),
        y.regs[11] == value(m, b),
        y.regs[8] == value(m, d),
        quiet(m, y),
{
    let at = m.ip;
    let p = s.get(R10, a);
    let q = p.get(R11, b);
    lemma_get_front(c, at, q, R8, d);
    lemma_get_front(c, at, p, R11, b);
    lemma_get_front(c, at, s, R10, a);
    let x = run_get(u, c, s, R10, a, m);
    lemma_quiet(m, x, b);
    let z = run_get(u, c, p, R11, b, x);
    lemma_onward(u, c, m, x, z);
    lemma_quiet(m, z, d);
    let y = run_get(u, c, q, R8, d, z);
    lemma_onward(u, c, m, z, y);
    y
}

// ---- comparing

spec fn equal_bytes() -> Seq<u8> {
    seq![
        0x4D, 0x85, 0xC0, 0x74, 0x14, 0x49, 0x0F, 0xB6, 0x03, 0x49, 0x38, 0x02, 0x75, 0x12, 0x49,
        0xFF, 0xC2, 0x49, 0xFF, 0xC3, 0x49, 0xFF, 0xC8, 0x75, 0xE7, 0xB8, 1, 0, 0, 0, 0xEB, 0x05,
        0xB8, 0, 0, 0, 0,
    ]
}

proof fn lemma_equal_bytes(c: Seq<u8>, s: Emit)
    requires
        agrees(c, s.code.len() as int, mem_equal_loop(s).code),
    ensures
        mem_equal_loop(s).code == s.code + equal_bytes(),
        mem_equal_loop(s).code.len() == s.code.len() + 37,
        forall|j: int| 0 <= j < 37 ==> c[s.code.len() + j] == #[trigger] equal_bytes()[j],
{
    let e = mem_equal_loop(s).code;
    lemma_one();
    assert(e =~= s.code + equal_bytes());
    assert forall|j: int| 0 <= j < 37 implies c[s.code.len() + j]
        == #[trigger] equal_bytes()[j] by {
        assert(e[s.code.len() + j] == equal_bytes()[j]);
    }
}

proof fn lemma_one()
    ensures
        le32(1) == seq![1u8, 0, 0, 0],
        le32(0) == seq![0u8, 0, 0, 0],
{
    assert(le32(1) =~= seq![1u8, 0, 0, 0]);
    assert(le32(0) =~= seq![0u8, 0, 0, 0]);
}

proof fn decode_number(c: Seq<u8>, at: int, v: u8)
    requires
        c[at] == 0xB8 && c[at + 1] == v && c[at + 2] == 0 && c[at + 3] == 0 && c[at + 4] == 0,
    ensures
        decode(c, at) == (
            Op::Mov { to: Place::Reg(0), from: Place::Imm(v as u64) },
            at + 5,
        ),
{
    lemma_plain(c, at);
    assert(u32_at(c, at + 1) == v);
    reveal(decode);
}

proof fn decode_over(c: Seq<u8>, at: int)
    requires
        c[at] == 0xEB && c[at + 1] == 5,
    ensures
        decode(c, at) == (Op::Jump(5), at + 2),
{
    lemma_plain(c, at);
    reveal(decode);
}

/// The end where all bytes are equal: `rax` is 1.
#[verifier::rlimit(40)]
proof fn run_equal(u: Fpu, c: Seq<u8>, at: int, m: Cpu) -> (x: Cpu)
    requires
        forall|j: int| 0 <= j < 37 ==> c[at + j] == #[trigger] equal_bytes()[j],
        m.ip == at + 25,
    ensures
        reaches(u, c, m, x),
        x.ip == at + 37,
        x.regs == m.regs.insert(0, 1),
        x.mem == m.mem,
{
    let b = equal_bytes();
    assert(c[at + 25] == b[25] && c[at + 26] == b[26] && c[at + 27] == b[27] && c[at + 28] == b[28]
        && c[at + 29] == b[29] && c[at + 30] == b[30] && c[at + 31] == b[31]);
    decode_number(c, at + 25, 1);
    let y = run_op(u, c, m, Op::Mov { to: Place::Reg(0), from: Place::Imm(1) }, at + 30);
    decode_over(c, at + 30);
    let x = run_op(u, c, y, Op::Jump(5), at + 32);
    lemma_onward(u, c, m, y, x);
    x
}

/// The end where two bytes differ: `rax` is 0.
proof fn run_differ(u: Fpu, c: Seq<u8>, at: int, m: Cpu) -> (x: Cpu)
    requires
        forall|j: int| 0 <= j < 37 ==> c[at + j] == #[trigger] equal_bytes()[j],
        m.ip == at + 32,
    ensures
        reaches(u, c, m, x),
        x.ip == at + 37,
        x.regs == m.regs.insert(0, 0),
        x.mem == m.mem,
{
    let b = equal_bytes();
    assert(c[at + 32] == b[32] && c[at + 33] == b[33] && c[at + 34] == b[34] && c[at + 35] == b[35]
        && c[at + 36] == b[36]);
    decode_number(c, at + 32, 0);
    run_op(u, c, m, Op::Mov { to: Place::Reg(0), from: Place::Imm(0) }, at + 37)
}

/// One byte: on where it is equal, to the end where it is not.
#[verifier::spinoff_prover]
#[verifier::rlimit(40)]
proof fn run_compare_body(u: Fpu, c: Seq<u8>, at: int, m: Cpu) -> (x: Cpu)
    requires
        forall|j: int| 0 <= j < 37 ==> c[at + j] == #[trigger] equal_bytes()[j],
        m.ip == at,
        m.regs[8] > 0,
        m.regs[10] < u64::MAX,
        m.regs[11] < u64::MAX,
    ensures
        reaches(u, c, m, x),
        x.mem == m.mem,
        quiet(m, x),
        m.mem[m.regs[10] as int] != m.mem[m.regs[11] as int] ==> x.ip == at + 32,
        m.mem[m.regs[10] as int] == m.mem[m.regs[11] as int] ==> {
            &&& x.ip == if m.regs[8] > 1 {
                at
            } else {
                at + 25
            }
            &&& x.regs[10] == m.regs[10] + 1
            &&& x.regs[11] == m.regs[11] + 1
            &&& x.regs[8] == m.regs[8] - 1
        },
{
    let b = equal_bytes();
    assert(c[at + 0] == b[0] && c[at + 1] == b[1] && c[at + 2] == b[2] && c[at + 3] == b[3] && c[at
        + 4] == b[4] && c[at + 5] == b[5] && c[at + 6] == b[6] && c[at + 7] == b[7] && c[at + 8]
        == b[8] && c[at + 9] == b[9] && c[at + 10] == b[10] && c[at + 11] == b[11] && c[at + 12]
        == b[12] && c[at + 13] == b[13]);
    assert(c[at + 14] == b[14] && c[at + 15] == b[15] && c[at + 16] == b[16] && c[at + 17] == b[17]
        && c[at + 18] == b[18] && c[at + 19] == b[19] && c[at + 20] == b[20] && c[at + 21] == b[21]
        && c[at + 22] == b[22] && c[at + 23] == b[23] && c[at + 24] == b[24]);
    let w = run_check(u, c, at, m);
    let z = run_compared(u, c, at + 5, w);
    lemma_onward(u, c, m, w, z);
    let k = run_again(u, c, z);
    lemma_onward(u, c, m, z, k);
    if m.mem[m.regs[10] as int] != m.mem[m.regs[11] as int] {
        k
    } else {
        let x = run_advance(u, c, at + 14, k);
        lemma_onward(u, c, m, k, x);
        x
    }
}

/// `movzx rax, byte [r11]`, and `cmp [r10], al`.
#[verifier::rlimit(40)]
proof fn run_compared(u: Fpu, c: Seq<u8>, at: int, m: Cpu) -> (x: Cpu)
    requires
        c[at] == 0x49 && c[at + 1] == 0x0F && c[at + 2] == 0xB6 && c[at + 3] == 0x03,
        c[at + 4] == 0x49 && c[at + 5] == 0x38 && c[at + 6] == 0x02,
        m.ip == at,
    ensures
        reaches(u, c, m, x),
        x.ip == at + 7,
        x.flags.zf == (m.mem[m.regs[10] as int] == m.mem[m.regs[11] as int]),
        forall|q: int| q != 0 ==> #[trigger] x.regs[q] == m.regs[q],
        x.mem == m.mem,
{
    decode_load(c, at);
    let y = run_widened(u, c, m);
    decode_store(c, at + 4);
    let x = run_byte_against(u, c, y);
    lemma_onward(u, c, m, y, x);
    x
}

proof fn run_widened(u: Fpu, c: Seq<u8>, m: Cpu) -> (x: Cpu)
    requires
        decode(c, m.ip) == (Op::Widen { to: 0, from: at_base(11) }, m.ip + 4),
    ensures
        reaches(u, c, m, x),
        x.ip == m.ip + 4,
        x.regs == m.regs.insert(0, m.mem[m.regs[11] as int] as u64),
        x.mem == m.mem,
{
    run_op(u, c, m, Op::Widen { to: 0, from: at_base(11) }, m.ip + 4)
}

proof fn run_byte_against(u: Fpu, c: Seq<u8>, m: Cpu) -> (x: Cpu)
    requires
        decode(c, m.ip) == (Op::CompareByte { a: at_base(10), b: 0 }, m.ip + 3),
        m.regs[0] < 0x100,
    ensures
        reaches(u, c, m, x),
        x.ip == m.ip + 3,
        x.flags.zf == (m.mem[m.regs[10] as int] == m.regs[0]),
        x.regs == m.regs,
        x.mem == m.mem,
{
    run_op(u, c, m, Op::CompareByte { a: at_base(10), b: 0 }, m.ip + 3)
}

/// Whether `n` bytes from `a` on are those from `b` on.
pub open spec fn same_bytes(p: Map<int, u8>, a: int, b: int, n: int) -> bool {
    forall|j: int| 0 <= j < n ==> #[trigger] p[a + j] == p[b + j]
}

proof fn lemma_same_onward(p: Map<int, u8>, a: int, b: int, n: int)
    requires
        n > 0,
    ensures
        same_bytes(p, a, b, n) <==> p[a] == p[b] && same_bytes(p, a + 1, b + 1, n - 1),
{
    if same_bytes(p, a, b, n) {
        assert(p[a + 0] == p[b + 0]);
        assert forall|j: int| 0 <= j < n - 1 implies #[trigger] p[a + 1 + j] == p[b + 1 + j] by {
            assert(p[a + (j + 1)] == p[b + (j + 1)]);
        }
    }
    if p[a] == p[b] && same_bytes(p, a + 1, b + 1, n - 1) {
        assert forall|j: int| 0 <= j < n implies #[trigger] p[a + j] == p[b + j] by {
            if j > 0 {
                assert(p[a + 1 + (j - 1)] == p[b + 1 + (j - 1)]);
            }
        }
    }
}

#[verifier::rlimit(40)]
proof fn run_compare(u: Fpu, c: Seq<u8>, at: int, m: Cpu) -> (x: Cpu)
    requires
        forall|j: int| 0 <= j < 37 ==> c[at + j] == #[trigger] equal_bytes()[j],
        m.ip == at,
        m.regs[10] + m.regs[8] <= u64::MAX,
        m.regs[11] + m.regs[8] <= u64::MAX,
    ensures
        reaches(u, c, m, x),
        x.ip == at + 37,
        x.regs[0] == if same_bytes(
            m.mem,
            m.regs[10] as int,
            m.regs[11] as int,
            m.regs[8] as int,
        ) {
            1u64
        } else {
            0u64
        },
        quiet(m, x),
    decreases m.regs[8],
{
    let d = m.regs[10] as int;
    let s = m.regs[11] as int;
    let n = m.regs[8] as int;
    if n == 0 {
        let b = equal_bytes();
        assert(c[at + 0] == b[0] && c[at + 1] == b[1] && c[at + 2] == b[2] && c[at + 3] == b[3]
            && c[at + 4] == b[4]);
        let y = run_check(u, c, at, m);
        let x = run_equal(u, c, at, y);
        lemma_onward(u, c, m, y, x);
        x
    } else {
        lemma_same_onward(m.mem, d, s, n);
        let y = run_compare_body(u, c, at, m);
        let x = if m.mem[d] != m.mem[s] {
            run_differ(u, c, at, y)
        } else if n == 1 {
            run_equal(u, c, at, y)
        } else {
            run_compare(u, c, at, y)
        };
        lemma_onward(u, c, m, y, x);
        x
    }
}

/// Comparing leaves 1 in its destination where the two stretches hold the
/// same bytes, and 0 where they do not.
#[verifier::spinoff_prover]
#[verifier::rlimit(40)]
pub proof fn comparisons_look_at_every_byte(
    u: Fpu,
    c: Seq<u8>,
    s: Emit,
    cx: Cx,
    loc: Seq<Loc>,
    i: Instr,
    m: Cpu,
) -> (x: Cpu)
    requires
        i is MemCmp,
        agrees(c, s.code.len() as int, instr_code(s, cx, loc, i).code),
        m.ip == s.code.len(),
        in_frame(m, home(loc, i->MemCmp_dst)),
        in_frame(m, home(loc, i->MemCmp_a)),
        in_frame(m, home(loc, i->MemCmp_b)),
        in_frame(m, home(loc, i->MemCmp_len)),
        value(m, home(loc, i->MemCmp_a)) + value(m, home(loc, i->MemCmp_len)) <= u64::MAX,
        value(m, home(loc, i->MemCmp_b)) + value(m, home(loc, i->MemCmp_len)) <= u64::MAX,
    ensures
        reaches(u, c, m, x),
        x.ip == instr_code(s, cx, loc, i).code.len(),
        becomes(
            m,
            x,
            home(loc, i->MemCmp_dst),
            if same_bytes(
                m.mem,
                value(m, home(loc, i->MemCmp_a)) as int,
                value(m, home(loc, i->MemCmp_b)) as int,
                value(m, home(loc, i->MemCmp_len)) as int,
            ) {
                1
            } else {
                0
            },
        ),
{
    let at = m.ip;
    let d = home(loc, i->MemCmp_dst);
    let a = home(loc, i->MemCmp_a);
    let b = home(loc, i->MemCmp_b);
    let n = home(loc, i->MemCmp_len);
    let t = s.get(R10, a).get(R11, b).get(R8, n);
    let e = mem_equal_loop(t);
    lemma_put_front(c, at, e, RAX, d);
    assert(agrees(e.code, t.code.len() as int, e.code));
    lemma_equal_bytes(e.code, t);
    assert(e.code == t.raw(equal_bytes()).code);
    lemma_front(c, at, t, equal_bytes());
    let y = run_three(u, c, s, a, b, n, m);
    assert(agrees(c, t.code.len() as int, e.code));
    lemma_equal_bytes(c, t);
    let z = run_compare(u, c, t.code.len() as int, y);
    lemma_onward(u, c, m, y, z);
    lemma_quiet(m, z, d);
    let x = run_put(u, c, e, RAX, d, z);
    lemma_onward(u, c, m, z, x);
    lemma_becomes(m, z, x, d, z.regs[0]);
    x
}

} // verus!
