//! The code of constants, copies, arithmetic and comparisons computes what
//! the instruction says: run on the processor, it leaves the value in the
//! home of the result and every other home as it was.
use crate::bytes::wrap32;
use crate::ir::{BinOp, CmpOp, FBinOp, FCmpOp, Instr};
use crate::x86::emit::{modrm, rex, Emit, R11, RAX, RCX, RDX};
use crate::x86::fragments::{
    agrees, becomes, in_frame, lemma_becomes, lemma_front, lemma_get_front, lemma_home, lemma_imm32,
    lemma_imm64, lemma_plain, lemma_put_front, lemma_quiet, lemma_reg_operand, lemma_rex,
    lemma_slot_front, lemma_slot_operand, place_of, quiet, run_get, run_mov_rr, run_put,
    run_store_slot, value,
};
use crate::x86::instrs::{
    arith_code, bin_code, compare_code, const_code, fbin_code, fcompare_code, fneg_code, home,
    instr_code, is_arith, load_doubles, mov_code, neg_code, opcode, unordered_code, Cx,
};
use crate::x86::liveness::def_of;
use crate::x86::machine::{
    alu_flags, alu_value, behind_0f, decode, exec, field, holds_if, lemma_here, lemma_onward,
    lemma_step, operand, power, prefixes, quotient, reaches, remainder, signed32, signed64,
    with_low, with_operand, wrap64, Alu, Cpu, FArith, Fpu, Op, Place, Pre,
};
use crate::x86::regalloc::{Loc, Phys};
use vstd::prelude::*;

verus! {

// ---- what instructions mean

/// What `op` makes of two 64-bit patterns. Shift counts are taken modulo 64;
/// a right shift of a signed number rounds down, a division towards zero.
pub open spec fn bin_value(op: BinOp, a: u64, b: u64) -> u64 {
    match op {
        BinOp::Add => wrap64(a + b),
        BinOp::Sub => wrap64(a - b),
        BinOp::Mul => wrap64(a * b),
        BinOp::Div => wrap64(quotient(signed64(a), signed64(b))),
        BinOp::Rem => wrap64(remainder(signed64(a), signed64(b))),
        BinOp::And | BinOp::BitAnd => a & b,
        BinOp::Or | BinOp::BitOr => a | b,
        BinOp::BitXor => a ^ b,
        BinOp::Shl => wrap64(a * power(b as int % 64)),
        BinOp::Shr => wrap64(signed64(a) / power(b as int % 64)),
        BinOp::ShrShr => wrap64(a as int / power(b as int % 64)),
        BinOp::Is => 0,
    }
}

/// Whether the processor has a result for `op`: division by zero traps, and
/// so does a quotient that is out of range.
pub open spec fn bin_defined(op: BinOp, a: u64, b: u64) -> bool {
    op == BinOp::Div || op == BinOp::Rem ==> b != 0 && !(signed64(a) == -0x8000_0000_0000_0000
        && signed64(b) == -1)
}

pub open spec fn truth(b: bool) -> u64 {
    if b {
        1
    } else {
        0
    }
}

/// A comparison of signed numbers.
pub open spec fn compare_value(op: CmpOp, a: u64, b: u64) -> u64 {
    let x = signed64(a);
    let y = signed64(b);
    truth(
        match op {
            CmpOp::Eq => x == y,
            CmpOp::Ne => x != y,
            CmpOp::Lt => x < y,
            CmpOp::Gt => x > y,
            CmpOp::Le => x <= y,
            CmpOp::Ge => x >= y,
        },
    )
}

/// A comparison of doubles: one that is not a number differs from every
/// other, and is neither less nor greater.
pub open spec fn double_compare_value(u: Fpu, op: FCmpOp, a: u64, b: u64) -> u64 {
    let o = (u.order)(a, b);
    truth(
        match op {
            FCmpOp::Eq => o is Equal,
            FCmpOp::Ne => !(o is Equal),
            FCmpOp::Lt => o is Less,
            FCmpOp::Gt => o is Greater,
            FCmpOp::Le => o is Less || o is Equal,
            FCmpOp::Ge => o is Greater || o is Equal,
        },
    )
}

pub open spec fn double_bin_value(u: Fpu, op: FBinOp, a: u64, b: u64) -> u64 {
    match op {
        FBinOp::Add => (u.plus)(a, b),
        FBinOp::Sub => (u.minus)(a, b),
        FBinOp::Mul => (u.times)(a, b),
        FBinOp::Div => (u.over)(a, b),
    }
}

/// The value that `i` computes from the homes `loc`.
pub open spec fn result_of(u: Fpu, m: Cpu, loc: Seq<Loc>, i: Instr) -> u64 {
    match i {
        Instr::Const { imm, .. } => wrap64(imm as int),
        Instr::FConst { bits, .. } => bits,
        Instr::Mov { a, .. } => value(m, home(loc, a)),
        Instr::Bin { op, a, b, .. } => bin_value(
            op,
            value(m, home(loc, a)),
            value(m, home(loc, b)),
        ),
        Instr::Cmp { op, a, b, .. } => compare_value(
            op,
            value(m, home(loc, a)),
            value(m, home(loc, b)),
        ),
        Instr::Neg { a, .. } => wrap64(-(value(m, home(loc, a)) as int)),
        Instr::FBin { op, a, b, .. } => double_bin_value(
            u,
            op,
            value(m, home(loc, a)),
            value(m, home(loc, b)),
        ),
        Instr::FCmp { op, a, b, .. } => double_compare_value(
            u,
            op,
            value(m, home(loc, a)),
            value(m, home(loc, b)),
        ),
        Instr::FNeg { a, .. } => value(m, home(loc, a)) ^ 0x8000_0000_0000_0000,
        _ => 0,
    }
}

/// Whether the processor has a result for `i`.
pub open spec fn defined(m: Cpu, loc: Seq<Loc>, i: Instr) -> bool {
    i matches Instr::Bin { op, a, b, .. } ==> op != BinOp::Is && bin_defined(
        op,
        value(m, home(loc, a)),
        value(m, home(loc, b)),
    )
}

/// Whether the homes that `i` names lie in the frame.
pub open spec fn framed(m: Cpu, loc: Seq<Loc>, i: Instr) -> bool {
    match i {
        Instr::Const { dst, .. } => in_frame(m, home(loc, dst)),
        Instr::FConst { dst, .. } => in_frame(m, home(loc, dst)),
        Instr::Mov { dst, a } => in_frame(m, home(loc, dst)) && in_frame(m, home(loc, a)),
        Instr::Neg { dst, a } => in_frame(m, home(loc, dst)) && in_frame(m, home(loc, a)),
        Instr::FNeg { dst, a } => in_frame(m, home(loc, dst)) && in_frame(m, home(loc, a)),
        Instr::Bin { dst, a, b, .. } => in_frame(m, home(loc, dst)) && in_frame(m, home(loc, a))
            && in_frame(m, home(loc, b)),
        Instr::Cmp { dst, a, b, .. } => in_frame(m, home(loc, dst)) && in_frame(m, home(loc, a))
            && in_frame(m, home(loc, b)),
        Instr::FBin { dst, a, b, .. } => in_frame(m, home(loc, dst)) && in_frame(m, home(loc, a))
            && in_frame(m, home(loc, b)),
        Instr::FCmp { dst, a, b, .. } => in_frame(m, home(loc, dst)) && in_frame(m, home(loc, a))
            && in_frame(m, home(loc, b)),
        _ => true,
    }
}

// ---- one instruction of the processor at a time

/// Runs the instruction at hand.
pub proof fn run_op(u: Fpu, c: Seq<u8>, m: Cpu, op: Op, next: int) -> (x: Cpu)
    requires
        decode(c, m.ip) == (op, next),
        exec(u, op, m, next) is Some,
    ensures
        reaches(u, c, m, x),
        exec(u, op, m, next) == Some(x),
{
    let x = exec(u, op, m, next)->0;
    lemma_step(u, c, m, x);
    x
}

/// A change in one register, and in scratch registers and flags.
pub open spec fn quiet_but(m: Cpu, x: Cpu, r: int) -> bool {
    &&& x.mem == m.mem
    &&& r != 3 ==> x.regs[3] == m.regs[3]
    &&& x.regs[4] == m.regs[4]
    &&& x.regs[5] == m.regs[5]
    &&& r != 12 ==> x.regs[12] == m.regs[12]
    &&& r != 13 ==> x.regs[13] == m.regs[13]
    &&& r != 14 ==> x.regs[14] == m.regs[14]
    &&& r != 15 ==> x.regs[15] == m.regs[15]
}

pub proof fn lemma_becomes_reg(m: Cpu, x: Cpu, r: Phys, v: u64)
    requires
        quiet_but(m, x, r.number() as int),
        x.regs[r.number() as int] == v,
    ensures
        becomes(m, x, Loc::Reg(r), v),
{
    assert forall|l: Loc| l != Loc::Reg(r) && in_frame(m, l) implies #[trigger] value(x, l)
        == value(m, l) by {
        if let Loc::Reg(q) = l {
            assert(q.number() != r.number());
        }
    }
}

// ---- constants

proof fn lemma_small(bits: u64)
    requires
        bits < 0x8000_0000 || bits >= 0xFFFF_FFFF_8000_0000,
    ensures
        wrap64(signed32(wrap32(bits as int))) == bits,
{
}

proof fn decode_small(c: Seq<u8>, s: Emit, l: Loc, bits: u64)
    requires
        bits < 0x8000_0000 || bits >= 0xFFFF_FFFF_8000_0000,
        agrees(c, s.code.len() as int, const_code(s, l, bits).code),
        l matches Loc::Slot(k) ==> k < crate::x86::emit::MAX_SLOTS,
    ensures
        decode(c, s.code.len() as int) == (
            Op::Mov { to: place_of(l), from: Place::Imm(bits) },
            const_code(s, l, bits).code.len() as int,
        ),
{
    let at = s.code.len() as int;
    let v = wrap32(bits as int);
    lemma_small(bits);
    match l {
        Loc::Reg(r) => {
            let n = r.number();
            let b = seq![rex(true, false, n >= 8), 0xC7, modrm(3, 0, n)];
            let head = s.raw(b);
            lemma_front(c, at, head, crate::bytes::le32(v));
            lemma_front(c, at, s, b);
            assert(c[at + 0] == b[0] && c[at + 1] == b[1] && c[at + 2] == b[2]);
            lemma_rex(c, at, true, false, n >= 8);
            lemma_reg_operand(c, prefixes(c, at), at + 2, 0, n);
            lemma_imm32(c, head, v);
            reveal(decode);
        },
        Loc::Slot(k) => {
            let b = seq![rex(true, false, false), 0xC7];
            let head = s.raw(b);
            let full = head.slot_operand(0, k);
            lemma_front(c, at, full, crate::bytes::le32(v));
            lemma_slot_front(c, at, head, 0, k);
            lemma_front(c, at, s, b);
            assert(c[at + 0] == b[0] && c[at + 1] == b[1]);
            lemma_rex(c, at, true, false, false);
            lemma_slot_operand(c, prefixes(c, at), head, 0, k);
            lemma_imm32(c, full, v);
            reveal(decode);
        },
    }
}

proof fn decode_movabs(c: Seq<u8>, s: Emit, r: u8, bits: u64)
    requires
        r < 16,
        agrees(
            c,
            s.code.len() as int,
            s.raw(seq![rex(true, false, r >= 8), (0xB8 + r % 8) as u8]).imm64(bits).code,
        ),
    ensures
        decode(c, s.code.len() as int) == (
            Op::Mov { to: Place::Reg(r as int), from: Place::Imm(bits) },
            s.raw(seq![rex(true, false, r >= 8), (0xB8 + r % 8) as u8]).imm64(
                bits,
            ).code.len() as int,
        ),
{
    let at = s.code.len() as int;
    let b = seq![rex(true, false, r >= 8), (0xB8 + r % 8) as u8];
    let head = s.raw(b);
    lemma_front(c, at, head, crate::bytes::le64(bits));
    lemma_front(c, at, s, b);
    assert(c[at + 0] == b[0] && c[at + 1] == b[1]);
    lemma_rex(c, at, true, false, r >= 8);
    lemma_imm64(c, head, bits);
    reveal(decode);
}

#[verifier::rlimit(40)]
proof fn run_const(u: Fpu, c: Seq<u8>, s: Emit, l: Loc, bits: u64, m: Cpu) -> (x: Cpu)
    requires
        agrees(c, s.code.len() as int, const_code(s, l, bits).code),
        m.ip == s.code.len(),
        in_frame(m, l),
    ensures
        reaches(u, c, m, x),
        x.ip == const_code(s, l, bits).code.len(),
        becomes(m, x, l, bits),
{
    if bits < 0x8000_0000 || bits >= 0xFFFF_FFFF_8000_0000 {
        decode_small(c, s, l, bits);
        let next = const_code(s, l, bits).code.len() as int;
        lemma_home(m, l, bits, next);
        let x = run_op(u, c, m, Op::Mov { to: place_of(l), from: Place::Imm(bits) }, next);
        lemma_becomes(m, m, x, l, bits);
        x
    } else {
        match l {
            Loc::Reg(r) => {
                let n = r.number();
                decode_movabs(c, s, n, bits);
                let x = run_op(
                    u,
                    c,
                    m,
                    Op::Mov { to: Place::Reg(n as int), from: Place::Imm(bits) },
                    const_code(s, l, bits).code.len() as int,
                );
                lemma_becomes_reg(m, x, r, bits);
                x
            },
            Loc::Slot(k) => {
                let head = s.raw(seq![rex(true, false, false), 0xB8]).imm64(bits);
                lemma_put_front(c, s.code.len() as int, head, RAX, l);
                assert(seq![rex(true, false, RAX >= 8), (0xB8 + RAX % 8) as u8] =~= seq![
                    rex(true, false, false),
                    0xB8,
                ]);
                decode_movabs(c, s, RAX, bits);
                let y = run_op(
                    u,
                    c,
                    m,
                    Op::Mov { to: Place::Reg(0), from: Place::Imm(bits) },
                    head.code.len() as int,
                );
                let x = run_store_slot(u, c, head, k, RAX, y);
                lemma_onward(u, c, m, y, x);
                lemma_becomes(m, y, x, l, bits);
                x
            },
        }
    }
}

proof fn run_mov(u: Fpu, c: Seq<u8>, s: Emit, d: Loc, a: Loc, m: Cpu) -> (x: Cpu)
    requires
        agrees(c, s.code.len() as int, mov_code(s, d, a).code),
        m.ip == s.code.len(),
        in_frame(m, d),
        in_frame(m, a),
    ensures
        reaches(u, c, m, x),
        x.ip == mov_code(s, d, a).code.len(),
        becomes(m, x, d, value(m, a)),
{
    let at = s.code.len() as int;
    match (d, a) {
        (Loc::Reg(dr), _) => {
            let x = run_get(u, c, s, dr.number(), a, m);
            lemma_becomes_reg(m, x, dr, value(m, a));
            x
        },
        (Loc::Slot(kd), Loc::Reg(sr)) => {
            let x = run_put(u, c, s, sr.number(), d, m);
            lemma_becomes(m, m, x, d, value(m, a));
            x
        },
        (Loc::Slot(kd), Loc::Slot(ks)) => {
            lemma_put_front(c, at, s.get(RAX, a), RAX, d);
            run_through(u, c, s, RAX, a, d, m)
        },
    }
}

/// A load into a scratch register and a store from it.
#[verifier::rlimit(40)]
proof fn run_through(u: Fpu, c: Seq<u8>, s: Emit, r: u8, a: Loc, d: Loc, m: Cpu) -> (x: Cpu)
    requires
        agrees(c, s.code.len() as int, s.get(r, a).put(r, d).code),
        m.ip == s.code.len(),
        in_frame(m, d),
        in_frame(m, a),
        r < 3,
    ensures
        reaches(u, c, m, x),
        x.ip == s.get(r, a).put(r, d).code.len(),
        becomes(m, x, d, value(m, a)),
{
    let at = s.code.len() as int;
    lemma_put_front(c, at, s.get(r, a), r, d);
    lemma_get_front(c, at, s, r, a);
    let y = run_get(u, c, s, r, a, m);
    let x = run_put(u, c, s.get(r, a), r, d, y);
    lemma_onward(u, c, m, y, x);
    lemma_becomes(m, y, x, d, value(m, a));
    x
}

// ---- negation

proof fn decode_neg(c: Seq<u8>, s: Emit, r: u8)
    requires
        r < 16,
        agrees(
            c,
            s.code.len() as int,
            s.raw(seq![rex(true, false, r >= 8), 0xF7, modrm(3, 3, r)]).code,
        ),
    ensures
        decode(c, s.code.len() as int) == (
            Op::Neg { to: Place::Reg(r as int) },
            s.code.len() as int + 3,
        ),
{
    let at = s.code.len() as int;
    let b = seq![rex(true, false, r >= 8), 0xF7, modrm(3, 3, r)];
    lemma_front(c, at, s, b);
    assert(c[at + 0] == b[0] && c[at + 1] == b[1] && c[at + 2] == b[2]);
    lemma_rex(c, at, true, false, r >= 8);
    lemma_reg_operand(c, prefixes(c, at), at + 2, 3, r);
    reveal(decode);
}

/// Finishes with a store of a scratch register.
#[verifier::rlimit(40)]
proof fn finish(u: Fpu, c: Seq<u8>, s: Emit, r: u8, d: Loc, m: Cpu, y: Cpu) -> (x: Cpu)
    requires
        agrees(c, s.code.len() as int, s.put(r, d).code),
        y.ip == s.code.len(),
        reaches(u, c, m, y),
        quiet(m, y),
        in_frame(m, d),
        r < 3,
    ensures
        reaches(u, c, m, x),
        x.ip == s.put(r, d).code.len(),
        becomes(m, x, d, y.regs[r as int]),
{
    let x = run_put(u, c, s, r, d, y);
    lemma_onward(u, c, m, y, x);
    lemma_becomes(m, y, x, d, y.regs[r as int]);
    x
}

#[verifier::rlimit(40)]
proof fn run_neg(u: Fpu, c: Seq<u8>, s: Emit, d: Loc, a: Loc, m: Cpu) -> (x: Cpu)
    requires
        agrees(c, s.code.len() as int, neg_code(s, d, a).code),
        m.ip == s.code.len(),
        in_frame(m, d),
        in_frame(m, a),
    ensures
        reaches(u, c, m, x),
        x.ip == neg_code(s, d, a).code.len(),
        becomes(m, x, d, wrap64(-(value(m, a) as int))),
{
    let at = s.code.len() as int;
    if d is Reg && d == a {
        let r = d->Reg_0;
        let n = r.number();
        decode_neg(c, s, n);
        let x = run_op(u, c, m, Op::Neg { to: Place::Reg(n as int) }, at + 3);
        lemma_becomes_reg(m, x, r, wrap64(-(value(m, a) as int)));
        x
    } else {
        let s1 = s.get(RAX, a);
        let b = seq![0x48u8, 0xF7, 0xD8];
        let s2 = s1.raw(b);
        lemma_put_front(c, at, s2, RAX, d);
        lemma_front(c, at, s1, b);
        lemma_get_front(c, at, s, RAX, a);
        assert(seq![rex(true, false, RAX >= 8), 0xF7, modrm(3, 3, RAX)] =~= b);
        let y = run_get(u, c, s, RAX, a, m);
        decode_neg(c, s1, RAX);
        let z = run_op(u, c, y, Op::Neg { to: Place::Reg(0) }, s1.code.len() as int + 3);
        lemma_onward(u, c, m, y, z);
        finish(u, c, s2, RAX, d, m, z)
    }
}

// ---- integer operations

/// The arithmetic that a two-operand instruction stands for.
spec fn alu_of(op: BinOp) -> Alu {
    match op {
        BinOp::Add => Alu::Plus,
        BinOp::Sub => Alu::Minus,
        BinOp::Mul => Alu::Times,
        BinOp::And | BinOp::BitAnd => Alu::Both,
        BinOp::Or | BinOp::BitOr => Alu::Either,
        _ => Alu::Differ,
    }
}

spec fn two_operand(op: BinOp) -> bool {
    match op {
        BinOp::Div | BinOp::Rem | BinOp::Shl | BinOp::Shr | BinOp::ShrShr | BinOp::Is => false,
        _ => true,
    }
}

/// An opcode of two-operand arithmetic, with its operands read.
proof fn decode_alu(c: Seq<u8>, at: int, op: BinOp, place: Place, g: int, next: int)
    requires
        two_operand(op),
        prefixes(c, at).wide,
        c[prefixes(c, at).at] == opcode(op)[0],
        opcode(op).len() == 2 ==> c[prefixes(c, at).at + 1] == opcode(op)[1],
        operand(c, prefixes(c, at), prefixes(c, at).at + opcode(op).len()) == (place, next),
        field(c, prefixes(c, at).at + opcode(op).len()) == g,
    ensures
        decode(c, at) == (
            Op::Arith {
                f: alu_of(op),
                wide: true,
                keep: true,
                to: Place::Reg(g + prefixes(c, at).r),
                from: place,
            },
            next,
        ),
{
    reveal(decode);
    let p = prefixes(c, at);
    if op == BinOp::Mul {
        assert(c[p.at] == 0x0F && c[p.at + 1] == 0xAF);
        assert(decode(c, at) == behind_0f(c, p));
    } else {
        assert(opcode(op).len() == 1);
        assert(decode(c, at) == with_operand(c, p));
    }
}

/// `op rd, r` behind a REX prefix.
proof fn decode_arith_rr(c: Seq<u8>, s: Emit, op: BinOp, rd: u8, r: u8)
    requires
        two_operand(op),
        rd < 16,
        r < 16,
        agrees(
            c,
            s.code.len() as int,
            s.raw(seq![rex(true, rd >= 8, r >= 8)]).raw(opcode(op)).raw(
                seq![modrm(3, rd, r)],
            ).code,
        ),
    ensures
        decode(c, s.code.len() as int) == (
            Op::Arith {
                f: alu_of(op),
                wide: true,
                keep: true,
                to: Place::Reg(rd as int),
                from: Place::Reg(r as int),
            },
            s.code.len() as int + 2 + opcode(op).len(),
        ),
{
    let at = s.code.len() as int;
    let b = seq![rex(true, rd >= 8, r >= 8)];
    let s1 = s.raw(b);
    let s2 = s1.raw(opcode(op));
    let e = seq![modrm(3, rd, r)];
    lemma_front(c, at, s2, e);
    lemma_front(c, at, s1, opcode(op));
    lemma_front(c, at, s, b);
    let n = opcode(op).len() as int;
    assert(c[at + 0] == b[0]);
    assert(c[s1.code.len() as int + 0] == opcode(op)[0]);
    assert(n == 2 ==> c[s1.code.len() as int + 1] == opcode(op)[1]);
    assert(c[s2.code.len() as int + 0] == e[0]);
    lemma_rex(c, at, true, rd >= 8, r >= 8);
    lemma_reg_operand(c, prefixes(c, at), at + 1 + n, rd, r);
    decode_alu(c, at, op, Place::Reg(r as int), rd as int % 8, at + 2 + n);
}

proof fn decode_arith_slot(c: Seq<u8>, s: Emit, op: BinOp, rd: u8, k: u32)
    requires
        two_operand(op),
        rd < 16,
        k < crate::x86::emit::MAX_SLOTS,
        agrees(c, s.code.len() as int, arith_code(s, op, rd, Loc::Slot(k)).code),
    ensures
        decode(c, s.code.len() as int) == (
            Op::Arith {
                f: alu_of(op),
                wide: true,
                keep: true,
                to: Place::Reg(rd as int),
                from: place_of(Loc::Slot(k)),
            },
            arith_code(s, op, rd, Loc::Slot(k)).code.len() as int,
        ),
{
    let at = s.code.len() as int;
    let b = seq![rex(true, rd >= 8, false)];
    let s1 = s.raw(b);
    let s2 = s1.raw(opcode(op));
    lemma_slot_front(c, at, s2, rd, k);
    lemma_front(c, at, s1, opcode(op));
    lemma_front(c, at, s, b);
    let n = opcode(op).len() as int;
    assert(c[at + 0] == b[0]);
    assert(c[s1.code.len() as int + 0] == opcode(op)[0]);
    assert(n == 2 ==> c[s1.code.len() as int + 1] == opcode(op)[1]);
    lemma_rex(c, at, true, rd >= 8, false);
    lemma_slot_operand(c, prefixes(c, at), s2, rd, k);
    decode_alu(
        c,
        at,
        op,
        place_of(Loc::Slot(k)),
        rd as int % 8,
        arith_code(s, op, rd, Loc::Slot(k)).code.len() as int,
    );
}

/// `op rd, l`, with the left operand in `rd`.
proof fn run_arith(u: Fpu, c: Seq<u8>, s: Emit, op: BinOp, rd: u8, l: Loc, m: Cpu) -> (x: Cpu)
    requires
        two_operand(op),
        rd < 16,
        agrees(c, s.code.len() as int, arith_code(s, op, rd, l).code),
        m.ip == s.code.len(),
        in_frame(m, l),
    ensures
        reaches(u, c, m, x),
        x.ip == arith_code(s, op, rd, l).code.len(),
        x.regs[rd as int] == bin_value(op, m.regs[rd as int], value(m, l)),
        forall|q: int| q != rd ==> #[trigger] x.regs[q] == m.regs[q],
        x.mem == m.mem,
{
    let next = arith_code(s, op, rd, l).code.len() as int;
    lemma_home(m, l, 0, next);
    match l {
        Loc::Reg(r) => decode_arith_rr(c, s, op, rd, r.number()),
        Loc::Slot(k) => decode_arith_slot(c, s, op, rd, k),
    }
    run_op(
        u,
        c,
        m,
        Op::Arith {
            f: alu_of(op),
            wide: true,
            keep: true,
            to: Place::Reg(rd as int),
            from: place_of(l),
        },
        next,
    )
}

proof fn lemma_arith_front(c: Seq<u8>, from: int, s: Emit, op: BinOp, rd: u8, l: Loc)
    requires
        agrees(c, from, arith_code(s, op, rd, l).code),
    ensures
        agrees(c, from, s.code),
{
    match l {
        Loc::Reg(br) => {
            let s1 = s.raw(seq![rex(true, rd >= 8, br.number() >= 8)]);
            lemma_front(c, from, s1.raw(opcode(op)), seq![modrm(3, rd, br.number())]);
            lemma_front(c, from, s1, opcode(op));
            lemma_front(c, from, s, seq![rex(true, rd >= 8, br.number() >= 8)]);
        },
        Loc::Slot(k) => {
            let s1 = s.raw(seq![rex(true, rd >= 8, false)]);
            lemma_slot_front(c, from, s1.raw(opcode(op)), rd, k);
            lemma_front(c, from, s1, opcode(op));
            lemma_front(c, from, s, seq![rex(true, rd >= 8, false)]);
        },
    }
}

#[verifier::rlimit(40)]
proof fn run_two_operand(
    u: Fpu,
    c: Seq<u8>,
    s: Emit,
    op: BinOp,
    d: Loc,
    a: Loc,
    b: Loc,
    m: Cpu,
) -> (x: Cpu)
    requires
        two_operand(op),
        agrees(c, s.code.len() as int, bin_code(s, op, d, a, b).code),
        m.ip == s.code.len(),
        in_frame(m, d),
        in_frame(m, a),
        in_frame(m, b),
    ensures
        reaches(u, c, m, x),
        x.ip == bin_code(s, op, d, a, b).code.len(),
        becomes(m, x, d, bin_value(op, value(m, a), value(m, b))),
{
    let at = s.code.len() as int;
    let v = bin_value(op, value(m, a), value(m, b));
    match d {
        Loc::Reg(dr) => {
            let n = dr.number();
            if b == d {
                run_shared(u, c, s, op, dr, a, m)
            } else {
                let s1 = s.get(n, a);
                lemma_arith_front(c, at, s1, op, n, b);
                lemma_get_front(c, at, s, n, a);
                let y = run_get(u, c, s, n, a, m);
                assert(value(y, b) == value(m, b)) by {
                    if let Loc::Reg(br) = b {
                        assert(br.number() != n);
                    }
                }
                let x = run_arith(u, c, s1, op, n, b, y);
                lemma_onward(u, c, m, y, x);
                lemma_becomes_reg(m, x, dr, v);
                x
            }
        },
        Loc::Slot(_) => {
            let s1 = s.get(RAX, a);
            let s2 = arith_code(s1, op, RAX, b);
            lemma_put_front(c, at, s2, RAX, d);
            lemma_arith_front(c, at, s1, op, RAX, b);
            lemma_get_front(c, at, s, RAX, a);
            let y = run_get(u, c, s, RAX, a, m);
            lemma_quiet(m, y, b);
            let z = run_arith(u, c, s1, op, RAX, b, y);
            lemma_onward(u, c, m, y, z);
            finish(u, c, s2, RAX, d, m, z)
        },
    }
}

/// The right operand lives in the destination register.
#[verifier::rlimit(40)]
proof fn run_shared(u: Fpu, c: Seq<u8>, s: Emit, op: BinOp, dr: Phys, a: Loc, m: Cpu) -> (x: Cpu)
    requires
        two_operand(op),
        agrees(c, s.code.len() as int, bin_code(s, op, Loc::Reg(dr), a, Loc::Reg(dr)).code),
        m.ip == s.code.len(),
        in_frame(m, a),
    ensures
        reaches(u, c, m, x),
        x.ip == bin_code(s, op, Loc::Reg(dr), a, Loc::Reg(dr)).code.len(),
        becomes(m, x, Loc::Reg(dr), bin_value(op, value(m, a), value(m, Loc::Reg(dr)))),
{
    let at = s.code.len() as int;
    let n = dr.number();
    let s1 = s.mov_rr(R11, n);
    let s2 = s1.get(n, a);
    let h = seq![rex(true, n >= 8, true)];
    let e = seq![modrm(3, n, R11)];
    assert(s1 == s.get(R11, Loc::Reg(dr)));
    lemma_front(c, at, s2.raw(h).raw(opcode(op)), e);
    lemma_front(c, at, s2.raw(h), opcode(op));
    lemma_front(c, at, s2, h);
    lemma_get_front(c, at, s1, n, a);
    lemma_get_front(c, at, s, R11, Loc::Reg(dr));
    let y = run_mov_rr(u, c, s, R11, n, m);
    assert(value(y, a) == value(m, a));
    let z = run_get(u, c, s1, n, a, y);
    lemma_onward(u, c, m, y, z);
    decode_arith_rr(c, s2, op, n, R11);
    let x = run_op(
        u,
        c,
        z,
        Op::Arith {
            f: alu_of(op),
            wide: true,
            keep: true,
            to: Place::Reg(n as int),
            from: Place::Reg(11),
        },
        s2.code.len() as int + 2 + opcode(op).len(),
    );
    lemma_onward(u, c, m, z, x);
    lemma_becomes_reg(m, x, dr, bin_value(op, value(m, a), value(m, Loc::Reg(dr))));
    x
}

proof fn decode_divide(c: Seq<u8>, s: Emit)
    requires
        agrees(
            c,
            s.code.len() as int,
            s.raw(seq![0x48, 0x99]).raw(seq![rex(true, false, true), 0xF7, modrm(3, 7, R11)]).code,
        ),
    ensures
        decode(c, s.code.len() as int) == (Op::SignOut, s.code.len() as int + 2),
        decode(c, s.code.len() as int + 2) == (Op::Divide { by: Place::Reg(11) }, s.code.len() as int + 5),
{
    let at = s.code.len() as int;
    let b = seq![0x48u8, 0x99];
    let e = seq![rex(true, false, true), 0xF7, modrm(3, 7, R11)];
    lemma_front(c, at, s.raw(b), e);
    lemma_front(c, at, s, b);
    assert(c[at + 0] == b[0] && c[at + 1] == b[1]);
    assert(c[at + 2 + 0] == e[0] && c[at + 2 + 1] == e[1] && c[at + 2 + 2] == e[2]);
    assert(rex(true, false, false) == 0x48);
    lemma_rex(c, at, true, false, false);
    lemma_rex(c, at + 2, true, false, true);
    lemma_reg_operand(c, prefixes(c, at + 2), at + 4, 7, R11);
    reveal(decode);
}

proof fn lemma_quotient(a: int, b: int)
    requires
        -0x8000_0000_0000_0000 <= a < 0x8000_0000_0000_0000,
        b != 0,
        !(a == -0x8000_0000_0000_0000 && b == -1),
    ensures
        -0x8000_0000_0000_0000 <= quotient(a, b) < 0x8000_0000_0000_0000,
{
    let n = if a >= 0 {
        a
    } else {
        -a
    };
    assert(-n <= n / b <= n) by (nonlinear_arith)
        requires
            n >= 0,
            b != 0,
    ;
    if a == -0x8000_0000_0000_0000 {
        assert(n / b != -n || b == -1) by (nonlinear_arith)
            requires
                n > 0,
                b != 0,
        ;
        assert(n / b > -n);
    }
}

#[verifier::rlimit(40)]
proof fn run_division(
    u: Fpu,
    c: Seq<u8>,
    s: Emit,
    op: BinOp,
    d: Loc,
    a: Loc,
    b: Loc,
    m: Cpu,
) -> (x: Cpu)
    requires
        op == BinOp::Div || op == BinOp::Rem,
        bin_defined(op, value(m, a), value(m, b)),
        agrees(c, s.code.len() as int, bin_code(s, op, d, a, b).code),
        m.ip == s.code.len(),
        in_frame(m, d),
        in_frame(m, a),
        in_frame(m, b),
    ensures
        reaches(u, c, m, x),
        x.ip == bin_code(s, op, d, a, b).code.len(),
        becomes(m, x, d, bin_value(op, value(m, a), value(m, b))),
{
    let at = s.code.len() as int;
    let s1 = s.get(RAX, a);
    let s2 = s1.get(R11, b);
    let p = seq![0x48u8, 0x99];
    let q = seq![rex(true, false, true), 0xF7, modrm(3, 7, R11)];
    let s3 = s2.raw(p).raw(q);
    let out = if op == BinOp::Div {
        RAX
    } else {
        RDX
    };
    lemma_put_front(c, at, s3, out, d);
    lemma_front(c, at, s2.raw(p), q);
    lemma_front(c, at, s2, p);
    lemma_get_front(c, at, s1, R11, b);
    lemma_get_front(c, at, s, RAX, a);
    let y = run_get(u, c, s, RAX, a, m);
    lemma_quiet(m, y, b);
    let z = run_get(u, c, s1, R11, b, y);
    lemma_onward(u, c, m, y, z);
    decode_divide(c, s2);
    let w = run_op(u, c, z, Op::SignOut, s2.code.len() as int + 2);
    lemma_onward(u, c, m, z, w);
    let n = signed64(w.regs[2]) * 0x1_0000_0000_0000_0000 + w.regs[0];
    assert(n == signed64(value(m, a)));
    assert(signed64(value(m, b)) != 0);
    lemma_quotient(n, signed64(value(m, b)));
    let v = run_op(u, c, w, Op::Divide { by: Place::Reg(11) }, s2.code.len() as int + 5);
    lemma_onward(u, c, m, w, v);
    finish(u, c, s3, out, d, m, v)
}

proof fn decode_shift(c: Seq<u8>, s: Emit, g: u8)
    requires
        g == 4 || g == 5 || g == 7,
        agrees(c, s.code.len() as int, s.raw(seq![0x48, 0xD3, modrm(3, g, RAX)]).code),
    ensures
        decode(c, s.code.len() as int) == (
            if g == 4 {
                Op::ShiftLeft { to: Place::Reg(0) }
            } else if g == 7 {
                Op::ShiftSigned { to: Place::Reg(0) }
            } else {
                Op::ShiftPlain { to: Place::Reg(0) }
            },
            s.code.len() as int + 3,
        ),
{
    let at = s.code.len() as int;
    let b = seq![0x48, 0xD3, modrm(3, g, RAX)];
    lemma_front(c, at, s, b);
    assert(c[at + 0] == b[0] && c[at + 1] == b[1] && c[at + 2] == b[2]);
    assert(rex(true, false, false) == 0x48);
    lemma_rex(c, at, true, false, false);
    lemma_reg_operand(c, prefixes(c, at), at + 2, g, RAX);
    reveal(decode);
}

#[verifier::rlimit(40)]
proof fn run_shift(
    u: Fpu,
    c: Seq<u8>,
    s: Emit,
    op: BinOp,
    d: Loc,
    a: Loc,
    b: Loc,
    m: Cpu,
) -> (x: Cpu)
    requires
        op == BinOp::Shl || op == BinOp::Shr || op == BinOp::ShrShr,
        agrees(c, s.code.len() as int, bin_code(s, op, d, a, b).code),
        m.ip == s.code.len(),
        in_frame(m, d),
        in_frame(m, a),
        in_frame(m, b),
    ensures
        reaches(u, c, m, x),
        x.ip == bin_code(s, op, d, a, b).code.len(),
        becomes(m, x, d, bin_value(op, value(m, a), value(m, b))),
{
    let at = s.code.len() as int;
    let g = crate::x86::instrs::shift_ext(op);
    let s1 = s.get(RAX, a);
    let s2 = s1.get(RCX, b);
    let q = seq![0x48, 0xD3, modrm(3, g, RAX)];
    let s3 = s2.raw(q);
    lemma_put_front(c, at, s3, RAX, d);
    lemma_front(c, at, s2, q);
    lemma_get_front(c, at, s1, RCX, b);
    lemma_get_front(c, at, s, RAX, a);
    let y = run_get(u, c, s, RAX, a, m);
    lemma_quiet(m, y, b);
    let z = run_get(u, c, s1, RCX, b, y);
    lemma_onward(u, c, m, y, z);
    decode_shift(c, s2, g);
    let w = run_op(u, c, z, decode(c, z.ip).0, s2.code.len() as int + 3);
    lemma_onward(u, c, m, z, w);
    finish(u, c, s3, RAX, d, m, w)
}

// ---- comparisons

/// The conditions of a signed comparison, by the flags that it sets.
proof fn lemma_conditions(a: u64, b: u64)
    ensures
        ({
            let f = alu_flags(Alu::Minus, a, b);
            let x = signed64(a);
            let y = signed64(b);
            &&& holds_if(4, f) == (x == y)
            &&& holds_if(5, f) == (x != y)
            &&& holds_if(0xC, f) == (x < y)
            &&& holds_if(0xF, f) == (x > y)
            &&& holds_if(0xE, f) == (x <= y)
            &&& holds_if(0xD, f) == (x >= y)
        }),
{
}

proof fn decode_compare(c: Seq<u8>, s: Emit, l: Loc)
    requires
        l matches Loc::Slot(k) ==> k < crate::x86::emit::MAX_SLOTS,
        agrees(c, s.code.len() as int, compared(s, l).code),
    ensures
        decode(c, s.code.len() as int) == (
            Op::Arith {
                f: Alu::Minus,
                wide: true,
                keep: false,
                to: Place::Reg(0),
                from: place_of(l),
            },
            compared(s, l).code.len() as int,
        ),
        agrees(c, s.code.len() as int, s.code),
{
    let at = s.code.len() as int;
    match l {
        Loc::Reg(r) => {
            let n = r.number();
            let b = seq![rex(true, false, n >= 8), 0x3B, modrm(3, RAX, n)];
            lemma_front(c, at, s, b);
            assert(c[at + 0] == b[0] && c[at + 1] == b[1] && c[at + 2] == b[2]);
            lemma_rex(c, at, true, false, n >= 8);
            lemma_reg_operand(c, prefixes(c, at), at + 2, RAX, n);
            reveal(decode);
        },
        Loc::Slot(k) => {
            let b = seq![rex(true, false, false), 0x3B];
            lemma_slot_front(c, at, s.raw(b), RAX, k);
            lemma_front(c, at, s, b);
            assert(c[at + 0] == b[0] && c[at + 1] == b[1]);
            lemma_rex(c, at, true, false, false);
            lemma_slot_operand(c, prefixes(c, at), s.raw(b), RAX, k);
            reveal(decode);
        },
    }
}

spec fn compared(s: Emit, l: Loc) -> Emit {
    match l {
        Loc::Reg(br) => s.raw(
            seq![rex(true, false, br.number() >= 8), 0x3B, modrm(3, RAX, br.number())],
        ),
        Loc::Slot(k) => s.raw(seq![rex(true, false, false), 0x3B]).slot_operand(RAX, k),
    }
}

proof fn lemma_compared_front(c: Seq<u8>, from: int, s: Emit, l: Loc)
    requires
        agrees(c, from, compared(s, l).code),
    ensures
        agrees(c, from, s.code),
{
    match l {
        Loc::Reg(br) => lemma_front(
            c,
            from,
            s,
            seq![rex(true, false, br.number() >= 8), 0x3B, modrm(3, RAX, br.number())],
        ),
        Loc::Slot(k) => {
            let b = seq![rex(true, false, false), 0x3B];
            lemma_slot_front(c, from, s.raw(b), RAX, k);
            lemma_front(c, from, s, b);
        },
    }
}

/// `setcc` of register `r`.
proof fn decode_set(c: Seq<u8>, s: Emit, cc: u8, r: u8)
    requires
        0x90 <= cc < 0xA0,
        r < 4,
        agrees(c, s.code.len() as int, s.raw(seq![0x0F, cc, modrm(3, 0, r)]).code),
    ensures
        decode(c, s.code.len() as int) == (
            Op::SetIf { cc: cc - 0x90, to: r as int },
            s.code.len() as int + 3,
        ),
{
    let at = s.code.len() as int;
    let b = seq![0x0F, cc, modrm(3, 0, r)];
    lemma_front(c, at, s, b);
    assert(c[at + 0] == b[0] && c[at + 1] == b[1] && c[at + 2] == b[2]);
    lemma_plain(c, at);
    lemma_reg_operand(c, prefixes(c, at), at + 2, 0, r);
    reveal(decode);
}

/// `movzx rax, al`
proof fn decode_widen(c: Seq<u8>, s: Emit)
    requires
        agrees(c, s.code.len() as int, s.raw(seq![0x48, 0x0F, 0xB6, 0xC0]).code),
    ensures
        decode(c, s.code.len() as int) == (
            Op::Widen { to: 0, from: Place::Reg(0) },
            s.code.len() as int + 4,
        ),
{
    let at = s.code.len() as int;
    let b = seq![0x48u8, 0x0F, 0xB6, 0xC0];
    lemma_front(c, at, s, b);
    assert(c[at + 0] == b[0] && c[at + 1] == b[1] && c[at + 2] == b[2] && c[at + 3] == b[3]);
    assert(rex(true, false, false) == 0x48);
    assert(modrm(3, 0, 0) == 0xC0);
    lemma_rex(c, at, true, false, false);
    lemma_reg_operand(c, prefixes(c, at), at + 3, 0, 0);
    reveal(decode);
}

proof fn lemma_low(x: u64, b: int)
    requires
        0 <= b < 0x100,
    ensures
        with_low(x, b) % 0x100 == b,
{
}

#[verifier::rlimit(40)]
proof fn run_compare(
    u: Fpu,
    c: Seq<u8>,
    s: Emit,
    op: CmpOp,
    d: Loc,
    a: Loc,
    b: Loc,
    m: Cpu,
) -> (x: Cpu)
    requires
        agrees(c, s.code.len() as int, compare_code(s, op, d, a, b).code),
        m.ip == s.code.len(),
        in_frame(m, d),
        in_frame(m, a),
        in_frame(m, b),
    ensures
        reaches(u, c, m, x),
        x.ip == compare_code(s, op, d, a, b).code.len(),
        becomes(m, x, d, compare_value(op, value(m, a), value(m, b))),
{
    let at = s.code.len() as int;
    let cc = crate::x86::instrs::setcc(op);
    let s1 = s.get(RAX, a);
    let s2 = compared(s1, b);
    let p = seq![0x0F, cc, 0xC0];
    let s3 = s2.raw(p);
    let q = seq![rex(true, false, false), 0x0F, 0xB6, modrm(3, RAX, RAX)];
    let s4 = s3.raw(q);
    assert(compare_code(s, op, d, a, b) == s4.put(RAX, d));
    assert(p =~= seq![0x0F, cc, modrm(3, 0, RAX)]);
    assert(q =~= seq![0x48u8, 0x0F, 0xB6, 0xC0]);
    lemma_put_front(c, at, s4, RAX, d);
    lemma_front(c, at, s3, q);
    lemma_front(c, at, s2, p);
    lemma_compared_front(c, at, s1, b);
    lemma_get_front(c, at, s, RAX, a);
    let y = run_get(u, c, s, RAX, a, m);
    lemma_quiet(m, y, b);
    decode_compare(c, s1, b);
    lemma_home(y, b, 0, s2.code.len() as int);
    let z = run_op(u, c, y, decode(c, y.ip).0, s2.code.len() as int);
    lemma_onward(u, c, m, y, z);
    decode_set(c, s2, cc, RAX);
    let w = run_op(u, c, z, Op::SetIf { cc: cc - 0x90, to: 0 }, s3.code.len() as int);
    lemma_onward(u, c, m, z, w);
    decode_widen(c, s3);
    let v = run_op(u, c, w, Op::Widen { to: 0, from: Place::Reg(0) }, s4.code.len() as int);
    lemma_onward(u, c, m, w, v);
    lemma_conditions(value(m, a), value(m, b));
    let bit = truth(holds_if(cc - 0x90, z.flags));
    lemma_low(z.regs[0], bit as int);
    finish(u, c, s4, RAX, d, m, v)
}

// ---- doubles

/// A prefix of an instruction on vector registers: `66`, a REX prefix, `0F`.
proof fn lemma_vector_prefix(c: Seq<u8>, at: int, b: bool)
    requires
        c[at] == 0x66,
        c[at + 1] == rex(true, false, b),
    ensures
        prefixes(c, at) == (Pre {
            double: true,
            any: true,
            wide: true,
            r: 0,
            x: 0,
            b: if b {
                8
            } else {
                0
            },
            at: at + 2,
        }),
{
}

/// An instruction on vector registers.
proof fn decode_vector(c: Seq<u8>, s: Emit, wide: u8, o: u8, reg: u8, rm: u8)
    requires
        wide == 0x48 || wide == 0x49,
        reg < 8,
        rm < 16,
        (rm >= 8) == (wide == 0x49),
        agrees(c, s.code.len() as int, s.raw(seq![0x66, wide, 0x0F, o, modrm(3, reg, rm)]).code),
    ensures
        ({
            let (op, next) = decode(c, s.code.len() as int);
            let g = reg as int;
            let r = rm as int;
            &&& next == s.code.len() as int + 5
            &&& o == 0x6E ==> op == (Op::ToVector { to: g, from: r })
            &&& o == 0x7E ==> op == (Op::FromVector { to: r, from: g })
            &&& o == 0x58 ==> op == (Op::Double { f: FArith::Plus, to: g, from: r })
            &&& o == 0x5C ==> op == (Op::Double { f: FArith::Minus, to: g, from: r })
            &&& o == 0x59 ==> op == (Op::Double { f: FArith::Times, to: g, from: r })
            &&& o == 0x5E ==> op == (Op::Double { f: FArith::Over, to: g, from: r })
            &&& o == 0x2F ==> op == (Op::Order { a: g, b: r })
        }) || !(o == 0x6E || o == 0x7E || o == 0x58 || o == 0x5C || o == 0x59 || o == 0x5E || o
            == 0x2F),
{
    let at = s.code.len() as int;
    let b = seq![0x66, wide, 0x0F, o, modrm(3, reg, rm)];
    lemma_front(c, at, s, b);
    assert(c[at + 0] == b[0] && c[at + 1] == b[1] && c[at + 2] == b[2] && c[at + 3] == b[3] && c[at
        + 4] == b[4]);
    assert(rex(true, false, false) == 0x48 && rex(true, false, true) == 0x49);
    lemma_vector_prefix(c, at, wide == 0x49);
    lemma_reg_operand(c, prefixes(c, at), at + 4, reg, rm);
    reveal(decode);
    assert(decode(c, at) == behind_0f(c, prefixes(c, at)));
}

/// Both operands in vector registers 0 and 1.
#[verifier::rlimit(40)]
proof fn run_load_doubles(u: Fpu, c: Seq<u8>, s: Emit, a: Loc, b: Loc, m: Cpu) -> (x: Cpu)
    requires
        agrees(c, s.code.len() as int, load_doubles(s.get(RAX, a).get(R11, b)).code),
        m.ip == s.code.len(),
        in_frame(m, a),
        in_frame(m, b),
    ensures
        reaches(u, c, m, x),
        x.ip == load_doubles(s.get(RAX, a).get(R11, b)).code.len(),
        quiet(m, x),
        x.xmm[0] == value(m, a),
        x.xmm[1] == value(m, b),
{
    let at = s.code.len() as int;
    let s1 = s.get(RAX, a);
    let s2 = s1.get(R11, b);
    let p = seq![0x66, 0x48, 0x0F, 0x6E, modrm(3, 0, RAX)];
    let q = seq![0x66, 0x49, 0x0F, 0x6E, modrm(3, 1, R11)];
    let s3 = s2.raw(p);
    lemma_front(c, at, s3, q);
    lemma_front(c, at, s2, p);
    lemma_get_front(c, at, s1, R11, b);
    lemma_get_front(c, at, s, RAX, a);
    let y = run_get(u, c, s, RAX, a, m);
    lemma_quiet(m, y, b);
    let z = run_get(u, c, s1, R11, b, y);
    lemma_onward(u, c, m, y, z);
    decode_vector(c, s2, 0x48, 0x6E, 0, RAX);
    let w = run_op(u, c, z, Op::ToVector { to: 0, from: 0 }, s3.code.len() as int);
    lemma_onward(u, c, m, z, w);
    decode_vector(c, s3, 0x49, 0x6E, 1, R11);
    let x = run_op(u, c, w, Op::ToVector { to: 1, from: 11 }, s3.raw(q).code.len() as int);
    lemma_onward(u, c, m, w, x);
    x
}

proof fn lemma_doubles_front(c: Seq<u8>, from: int, s: Emit)
    requires
        agrees(c, from, load_doubles(s).code),
    ensures
        agrees(c, from, s.code),
{
    let p = seq![0x66, 0x48, 0x0F, 0x6E, modrm(3, 0, RAX)];
    lemma_front(c, from, s.raw(p), seq![0x66, 0x49, 0x0F, 0x6E, modrm(3, 1, R11)]);
    lemma_front(c, from, s, p);
}

spec fn double_arith(op: FBinOp) -> FArith {
    match op {
        FBinOp::Add => FArith::Plus,
        FBinOp::Sub => FArith::Minus,
        FBinOp::Mul => FArith::Times,
        FBinOp::Div => FArith::Over,
    }
}

#[verifier::spinoff_prover]
#[verifier::rlimit(80)]
proof fn run_fbin(
    u: Fpu,
    c: Seq<u8>,
    s: Emit,
    op: FBinOp,
    d: Loc,
    a: Loc,
    b: Loc,
    m: Cpu,
) -> (x: Cpu)
    requires
        agrees(c, s.code.len() as int, fbin_code(s, op, d, a, b).code),
        m.ip == s.code.len(),
        in_frame(m, d),
        in_frame(m, a),
        in_frame(m, b),
    ensures
        reaches(u, c, m, x),
        x.ip == fbin_code(s, op, d, a, b).code.len(),
        becomes(m, x, d, double_bin_value(u, op, value(m, a), value(m, b))),
{
    let at = s.code.len() as int;
    let s1 = load_doubles(s.get(RAX, a).get(R11, b));
    let o = crate::x86::instrs::fopcode(op);
    let p = seq![0x66, 0x48, 0x0F, o, modrm(3, 0, 1)];
    let q = seq![0x66, 0x48, 0x0F, 0x7E, modrm(3, 0, RAX)];
    let s2 = s1.raw(p);
    let s3 = s2.raw(q);
    lemma_put_front(c, at, s3, RAX, d);
    lemma_front(c, at, s2, q);
    lemma_front(c, at, s1, p);
    lemma_doubles_front(c, at, s.get(RAX, a).get(R11, b));
    lemma_get_front(c, at, s.get(RAX, a), R11, b);
    lemma_get_front(c, at, s, RAX, a);
    let y = run_load_doubles(u, c, s, a, b, m);
    decode_vector(c, s1, 0x48, o, 0, 1);
    let z = run_op(
        u,
        c,
        y,
        Op::Double { f: double_arith(op), to: 0, from: 1 },
        s2.code.len() as int,
    );
    lemma_onward(u, c, m, y, z);
    decode_vector(c, s2, 0x48, 0x7E, 0, RAX);
    let w = run_op(u, c, z, Op::FromVector { to: 0, from: 0 }, s3.code.len() as int);
    lemma_onward(u, c, m, z, w);
    finish(u, c, s3, RAX, d, m, w)
}

proof fn decode_low_bytes(c: Seq<u8>, s: Emit, o: u8)
    requires
        o == 0x20 || o == 0x08,
        agrees(c, s.code.len() as int, s.raw(seq![o, modrm(3, RCX, 0)]).code),
    ensures
        decode(c, s.code.len() as int) == (
            Op::ArithByte {
                f: if o == 0x20 {
                    Alu::Both
                } else {
                    Alu::Either
                },
                to: 0,
                from: 1,
            },
            s.code.len() as int + 2,
        ),
{
    let at = s.code.len() as int;
    let b = seq![o, modrm(3, RCX, 0)];
    lemma_front(c, at, s, b);
    assert(c[at + 0] == b[0] && c[at + 1] == b[1]);
    lemma_plain(c, at);
    lemma_reg_operand(c, prefixes(c, at), at + 1, RCX, 0);
    reveal(decode);
}

proof fn lemma_bits()
    ensures
        0u64 & 0 == 0,
        0u64 & 1 == 0,
        1u64 & 0 == 0,
        1u64 & 1 == 1,
        0u64 | 0 == 0,
        0u64 | 1 == 1,
        1u64 | 0 == 1,
        1u64 | 1 == 1,
{
    assert(0u64 & 0 == 0 && 0u64 & 1 == 0 && 1u64 & 0 == 0 && 1u64 & 1 == 1 && 0u64 | 0 == 0 && 0u64
        | 1 == 1 && 1u64 | 0 == 1 && 1u64 | 1 == 1) by (bit_vector);
}

/// The correction for unordered operands: `al` holds `first`, and the flags
/// are those of the comparison.
#[verifier::spinoff_prover]
#[verifier::rlimit(80)]
proof fn run_unordered(u: Fpu, c: Seq<u8>, s: Emit, op: FCmpOp, first: bool, m: Cpu) -> (x: Cpu)
    requires
        agrees(c, s.code.len() as int, unordered_code(s, op).code),
        m.ip == s.code.len(),
        m.regs[0] % 0x100 == truth(first),
    ensures
        reaches(u, c, m, x),
        x.ip == unordered_code(s, op).code.len(),
        quiet(m, x),
        x.regs[0] % 0x100 == truth(
            match op {
                FCmpOp::Ge | FCmpOp::Gt => first,
                FCmpOp::Lt | FCmpOp::Le | FCmpOp::Eq => first && !m.flags.pf,
                FCmpOp::Ne => first || m.flags.pf,
            },
        ),
{
    let at = s.code.len() as int;
    if op == FCmpOp::Ge || op == FCmpOp::Gt {
        lemma_here(u, c, m);
        m
    } else {
        let cc: u8 = if op == FCmpOp::Ne {
            0x9A
        } else {
            0x9B
        };
        let o: u8 = if op == FCmpOp::Ne {
            0x08
        } else {
            0x20
        };
        let whole = seq![0x0F, cc, modrm(3, 0, RCX), o, modrm(3, RCX, 0)];
        let p = seq![0x0F, cc, modrm(3, 0, RCX)];
        let q = seq![o, modrm(3, RCX, 0)];
        assert(s.raw(whole).code =~= s.raw(p).raw(q).code);
        lemma_front(c, at, s.raw(p), q);
        decode_set(c, s, cc, RCX);
        let y = run_op(u, c, m, Op::SetIf { cc: cc - 0x90, to: 1 }, at + 3);
        let bit = truth(holds_if(cc - 0x90, m.flags));
        lemma_low(m.regs[1], bit as int);
        decode_low_bytes(c, s.raw(p), o);
        let x = run_op(u, c, y, decode(c, y.ip).0, at + 5);
        lemma_onward(u, c, m, y, x);
        lemma_bits();
        let f = if o == 0x20 {
            Alu::Both
        } else {
            Alu::Either
        };
        let v = alu_value(f, truth(first), bit);
        assert(v <= 1);
        lemma_low(y.regs[0], v as int);
        x
    }
}

proof fn lemma_unordered_front(c: Seq<u8>, from: int, s: Emit, op: FCmpOp)
    requires
        agrees(c, from, unordered_code(s, op).code),
    ensures
        agrees(c, from, s.code),
{
    match op {
        FCmpOp::Ge | FCmpOp::Gt => {},
        FCmpOp::Lt | FCmpOp::Le | FCmpOp::Eq => lemma_front(
            c,
            from,
            s,
            seq![0x0F, 0x9B, modrm(3, 0, RCX), 0x20, modrm(3, RCX, 0)],
        ),
        FCmpOp::Ne => lemma_front(
            c,
            from,
            s,
            seq![0x0F, 0x9A, modrm(3, 0, RCX), 0x08, modrm(3, RCX, 0)],
        ),
    }
}

#[verifier::spinoff_prover]
#[verifier::rlimit(80)]
proof fn run_fcompare(
    u: Fpu,
    c: Seq<u8>,
    s: Emit,
    op: FCmpOp,
    d: Loc,
    a: Loc,
    b: Loc,
    m: Cpu,
) -> (x: Cpu)
    requires
        agrees(c, s.code.len() as int, fcompare_code(s, op, d, a, b).code),
        m.ip == s.code.len(),
        in_frame(m, d),
        in_frame(m, a),
        in_frame(m, b),
    ensures
        reaches(u, c, m, x),
        x.ip == fcompare_code(s, op, d, a, b).code.len(),
        becomes(m, x, d, double_compare_value(u, op, value(m, a), value(m, b))),
{
    let at = s.code.len() as int;
    let cc = crate::x86::instrs::fsetcc(op);
    let s1 = load_doubles(s.get(RAX, a).get(R11, b));
    let p = seq![0x66, 0x48, 0x0F, 0x2F, modrm(3, 0, 1)];
    let s2 = s1.raw(p);
    let q = seq![0x0F, cc, modrm(3, 0, 0)];
    let s3 = s2.raw(q);
    let s4 = unordered_code(s3, op);
    let e = seq![0x48u8, 0x0F, 0xB6, 0xC0];
    let s5 = s4.raw(e);
    lemma_put_front(c, at, s5, RAX, d);
    lemma_front(c, at, s4, e);
    lemma_unordered_front(c, at, s3, op);
    lemma_front(c, at, s2, q);
    lemma_front(c, at, s1, p);
    lemma_doubles_front(c, at, s.get(RAX, a).get(R11, b));
    lemma_get_front(c, at, s.get(RAX, a), R11, b);
    lemma_get_front(c, at, s, RAX, a);
    let y = run_load_doubles(u, c, s, a, b, m);
    decode_vector(c, s1, 0x48, 0x2F, 0, 1);
    let z = run_op(u, c, y, Op::Order { a: 0, b: 1 }, s2.code.len() as int);
    lemma_onward(u, c, m, y, z);
    decode_set(c, s2, cc, 0);
    let w = run_op(u, c, z, Op::SetIf { cc: cc - 0x90, to: 0 }, s3.code.len() as int);
    lemma_onward(u, c, m, z, w);
    let first = holds_if(cc - 0x90, z.flags);
    lemma_low(z.regs[0], truth(first) as int);
    let v = run_unordered(u, c, s3, op, first, w);
    lemma_onward(u, c, m, w, v);
    decode_widen(c, s4);
    let t = run_op(u, c, v, Op::Widen { to: 0, from: Place::Reg(0) }, s5.code.len() as int);
    lemma_onward(u, c, m, v, t);
    finish(u, c, s5, RAX, d, m, t)
}

proof fn decode_xor(c: Seq<u8>, s: Emit)
    requires
        agrees(c, s.code.len() as int, s.raw(seq![0x48, 0x31, 0xC8]).code),
    ensures
        decode(c, s.code.len() as int) == (
            Op::Arith {
                f: Alu::Differ,
                wide: true,
                keep: true,
                to: Place::Reg(0),
                from: Place::Reg(1),
            },
            s.code.len() as int + 3,
        ),
{
    let at = s.code.len() as int;
    let b = seq![0x48u8, 0x31, 0xC8];
    lemma_front(c, at, s, b);
    assert(c[at + 0] == b[0] && c[at + 1] == b[1] && c[at + 2] == b[2]);
    assert(rex(true, false, false) == 0x48);
    assert(modrm(3, 1, 0) == 0xC8);
    lemma_rex(c, at, true, false, false);
    lemma_reg_operand(c, prefixes(c, at), at + 2, 1, 0);
    reveal(decode);
}

#[verifier::rlimit(40)]
proof fn run_fneg(u: Fpu, c: Seq<u8>, s: Emit, d: Loc, a: Loc, m: Cpu) -> (x: Cpu)
    requires
        agrees(c, s.code.len() as int, fneg_code(s, d, a).code),
        m.ip == s.code.len(),
        in_frame(m, d),
        in_frame(m, a),
    ensures
        reaches(u, c, m, x),
        x.ip == fneg_code(s, d, a).code.len(),
        becomes(m, x, d, value(m, a) ^ 0x8000_0000_0000_0000),
{
    let at = s.code.len() as int;
    let s1 = s.get(RAX, a);
    let h = seq![0x48u8, 0xB9];
    let s2 = s1.raw(h).imm64(0x8000_0000_0000_0000);
    let q = seq![0x48u8, 0x31, 0xC8];
    let s3 = s2.raw(q);
    lemma_put_front(c, at, s3, RAX, d);
    lemma_front(c, at, s2, q);
    lemma_front(c, at, s1.raw(h), crate::bytes::le64(0x8000_0000_0000_0000));
    lemma_front(c, at, s1, h);
    lemma_get_front(c, at, s, RAX, a);
    let y = run_get(u, c, s, RAX, a, m);
    assert(seq![rex(true, false, RCX >= 8), (0xB8 + RCX % 8) as u8] =~= h);
    decode_movabs(c, s1, RCX, 0x8000_0000_0000_0000);
    let z = run_op(
        u,
        c,
        y,
        Op::Mov { to: Place::Reg(1), from: Place::Imm(0x8000_0000_0000_0000) },
        s2.code.len() as int,
    );
    lemma_onward(u, c, m, y, z);
    decode_xor(c, s2);
    let w = run_op(
        u,
        c,
        z,
        Op::Arith {
            f: Alu::Differ,
            wide: true,
            keep: true,
            to: Place::Reg(0),
            from: Place::Reg(1),
        },
        s3.code.len() as int,
    );
    lemma_onward(u, c, m, z, w);
    finish(u, c, s3, RAX, d, m, w)
}

proof fn lemma_imm(imm: i64)
    ensures
        imm as u64 == wrap64(imm as int),
{
    assert(imm as u64 == if imm >= 0 {
        imm as int
    } else {
        imm + 0x1_0000_0000_0000_0000
    }) by (bit_vector);
}

/// Code that has the bytes of an instruction that computes, whatever stands
/// in front of it, leaves what the instruction says in the home of its
/// result, and every other home, the stack, the frame and the rest of memory
/// as they were.
pub proof fn arithmetic_computes(
    u: Fpu,
    c: Seq<u8>,
    s: Emit,
    cx: Cx,
    loc: Seq<Loc>,
    i: Instr,
    m: Cpu,
) -> (x: Cpu)
    requires
        is_arith(i),
        !(i is Raw),
        agrees(c, s.code.len() as int, instr_code(s, cx, loc, i).code),
        m.ip == s.code.len(),
        framed(m, loc, i),
        defined(m, loc, i),
    ensures
        reaches(u, c, m, x),
        x.ip == instr_code(s, cx, loc, i).code.len(),
        def_of(i) is Some,
        becomes(m, x, loc[def_of(i)->0 as int], result_of(u, m, loc, i)),
{
    match i {
        Instr::Const { dst, imm } => {
            lemma_imm(imm);
            run_const(u, c, s, home(loc, dst), imm as u64, m)
        },
        Instr::FConst { dst, bits } => run_const(u, c, s, home(loc, dst), bits, m),
        Instr::Mov { dst, a } => run_mov(u, c, s, home(loc, dst), home(loc, a), m),
        Instr::Bin { dst, op, a, b } => {
            let (d, l, r) = (home(loc, dst), home(loc, a), home(loc, b));
            if op == BinOp::Div || op == BinOp::Rem {
                run_division(u, c, s, op, d, l, r, m)
            } else if op == BinOp::Shl || op == BinOp::Shr || op == BinOp::ShrShr {
                run_shift(u, c, s, op, d, l, r, m)
            } else {
                run_two_operand(u, c, s, op, d, l, r, m)
            }
        },
        Instr::Cmp { dst, op, a, b } => run_compare(
            u,
            c,
            s,
            op,
            home(loc, dst),
            home(loc, a),
            home(loc, b),
            m,
        ),
        Instr::Neg { dst, a } => run_neg(u, c, s, home(loc, dst), home(loc, a), m),
        Instr::FBin { dst, op, a, b } => run_fbin(
            u,
            c,
            s,
            op,
            home(loc, dst),
            home(loc, a),
            home(loc, b),
            m,
        ),
        Instr::FCmp { dst, op, a, b } => run_fcompare(
            u,
            c,
            s,
            op,
            home(loc, dst),
            home(loc, a),
            home(loc, b),
            m,
        ),
        Instr::FNeg { dst, a } => run_fneg(u, c, s, home(loc, dst), home(loc, a), m),
        _ => m,
    }
}

} // verus!
