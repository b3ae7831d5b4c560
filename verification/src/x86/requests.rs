//! What the processor does with the code that asks something of the runtime
//! or of the system: what is in the registers when control leaves, and where
//! the answer goes.
use crate::bytes::{le32, u64_at};
use crate::ir::{Instr, Terminator};
use crate::target::{Reloc, RelocKind, Section, Sym};
use crate::x86::access::agrees_around;
use crate::x86::arithmetic::run_op;
use crate::x86::calls::{
    calling, comes_home, lemma_before_gap, lemma_calling, lemma_long, run_back, run_clear,
};
use crate::x86::emit::{modrm, rex, CallTarget, Emit, Uses, RAX, RDI, RSI};
use crate::x86::fragments::{
    agrees, in_frame, lemma_front, lemma_get_front, lemma_imm32, lemma_modrm, lemma_plain,
    lemma_reg_operand, lemma_rex, quiet, run_get, value,
};
use crate::x86::function::{term_code, Laid};
use crate::x86::instrs::{home, instr_code, Cx};
use crate::x86::machine::{
    decode, lemma_here, lemma_onward, prefixes, reaches, read64, signed8, wrap64, Alu, Cpu, Fpu, Op,
    Place,
};
use crate::x86::regalloc::{Loc, Phys};
use vstd::prelude::*;

verus! {

// ---- constants in registers

proof fn decode_number(c: Seq<u8>, s: Emit, r: u8, v: u32)
    requires
        agrees(c, s.code.len() as int, s.raw(seq![(0xB8 + r) as u8]).imm32(v).code),
        r < 8,
    ensures
        decode(c, s.code.len() as int) == (
            Op::Mov { to: Place::Reg(r as int), from: Place::Imm(v as u64) },
            s.code.len() as int + 5,
        ),
{
    let at = s.code.len() as int;
    let b = seq![(0xB8 + r) as u8];
    lemma_front(c, at, s.raw(b), le32(v));
    lemma_front(c, at, s, b);
    assert(c[at + 0] == b[0]);
    lemma_plain(c, at);
    lemma_imm32(c, s.raw(b), v);
    reveal(decode);
}

/// `mov r32, v`
spec fn number(s: Emit, r: u8, v: u32) -> Emit {
    s.raw(seq![(0xB8 + r) as u8]).imm32(v)
}

proof fn lemma_number_front(c: Seq<u8>, from: int, s: Emit, r: u8, v: u32)
    requires
        agrees(c, from, number(s, r, v).code),
    ensures
        agrees(c, from, s.code),
        number(s, r, v).code.len() == s.code.len() + 5,
{
    let b = seq![(0xB8 + r) as u8];
    lemma_front(c, from, s.raw(b), le32(v));
    lemma_front(c, from, s, b);
}

proof fn run_number(u: Fpu, c: Seq<u8>, s: Emit, r: u8, v: u32, m: Cpu) -> (x: Cpu)
    requires
        agrees(c, s.code.len() as int, number(s, r, v).code),
        m.ip == s.code.len(),
        r < 8,
    ensures
        reaches(u, c, m, x),
        x.ip == s.code.len() + 5,
        x.regs == m.regs.insert(r as int, v as u64),
        x.mem == m.mem,
{
    decode_number(c, s, r, v);
    run_op(
        u,
        c,
        m,
        Op::Mov { to: Place::Reg(r as int), from: Place::Imm(v as u64) },
        s.code.len() as int + 5,
    )
}

proof fn decode_syscall(c: Seq<u8>, s: Emit)
    requires
        agrees(c, s.code.len() as int, s.raw(seq![0x0F, 0x05]).code),
    ensures
        decode(c, s.code.len() as int) == (Op::Syscall, s.code.len() as int + 2),
{
    let at = s.code.len() as int;
    let b = seq![0x0Fu8, 0x05];
    lemma_front(c, at, s, b);
    assert(c[at + 0] == b[0] && c[at + 1] == b[1]);
    lemma_plain(c, at);
    reveal(decode);
}

// ---- the runtime

/// The helper that an instruction asks.
pub open spec fn helper_of(i: Instr) -> Option<CallTarget> {
    match i {
        Instr::WriteInt { .. } => Some(CallTarget::HelperItoa),
        Instr::EWriteInt { .. } => Some(CallTarget::HelperItoaErr),
        Instr::ScanInt { .. } => Some(CallTarget::HelperScanInt),
        Instr::Retain { .. } => Some(CallTarget::HelperRetain),
        Instr::Release { .. } => Some(CallTarget::HelperRelease),
        Instr::Alloc { .. } => Some(CallTarget::HelperAlloc),
        Instr::AllocDyn { .. } => Some(CallTarget::HelperAlloc),
        Instr::HandlerEnter { .. } => Some(CallTarget::HelperExcEnter),
        Instr::HandlerPop => Some(CallTarget::HelperExcPop),
        Instr::LoadExc { .. } => Some(CallTarget::HelperExcLoad),
        Instr::ClearInflight => Some(CallTarget::HelperExcClear),
        _ => None,
    }
}

/// The home whose value the helper finds in `rax`.
pub open spec fn asked_in_rax(loc: Seq<Loc>, i: Instr) -> Option<Loc> {
    match i {
        Instr::WriteInt { src } => Some(home(loc, src)),
        Instr::EWriteInt { src } => Some(home(loc, src)),
        Instr::Retain { src } => Some(home(loc, src)),
        Instr::Release { src, .. } => Some(home(loc, src)),
        _ => None,
    }
}

/// The size that the helper finds in `rsi`.
pub open spec fn asked_in_rsi(m: Cpu, loc: Seq<Loc>, i: Instr) -> Option<u64> {
    match i {
        Instr::Release { bytes, .. } => Some(bytes as u64),
        Instr::Alloc { bytes, .. } => Some(bytes as u64),
        Instr::AllocDyn { bytes, .. } => Some(value(m, home(loc, bytes))),
        _ => None,
    }
}

/// The home that the answer goes to.
pub open spec fn answer_home(loc: Seq<Loc>, i: Instr) -> Option<Loc> {
    match i {
        Instr::ScanInt { dst } => Some(home(loc, dst)),
        Instr::Alloc { dst, .. } => Some(home(loc, dst)),
        Instr::AllocDyn { dst, .. } => Some(home(loc, dst)),
        Instr::HandlerEnter { dst } => Some(home(loc, dst)),
        Instr::LoadExc { dst } => Some(home(loc, dst)),
        _ => None,
    }
}

/// Whether what `i` reads lies in the frame.
pub open spec fn asked_framed(m: Cpu, loc: Seq<Loc>, i: Instr) -> bool {
    &&& asked_in_rax(loc, i) matches Some(l) ==> in_frame(m, l)
    &&& i matches Instr::AllocDyn { bytes, .. } ==> in_frame(m, home(loc, bytes))
}

/// The helpers that are brought along, with the one that `i` asks.
spec fn noted(u: Uses, i: Instr) -> Uses {
    match i {
        Instr::WriteInt { .. } => Uses { int: true, ..u },
        Instr::EWriteInt { .. } => Uses { int_err: true, ..u },
        Instr::ScanInt { .. } => Uses { scan: true, ..u },
        Instr::Retain { .. } => Uses { retain: true, ..u },
        Instr::Release { .. } => Uses { release: true, ..u },
        Instr::Alloc { .. } => Uses { alloc: true, ..u },
        Instr::AllocDyn { .. } => Uses { alloc: true, ..u },
        _ => u,
    }
}

/// What stands before the call of a helper.
spec fn asking(s: Emit, loc: Seq<Loc>, i: Instr) -> Emit {
    let s = s.with(noted(s.uses, i));
    match i {
        Instr::WriteInt { src } => s.get(RAX, home(loc, src)),
        Instr::EWriteInt { src } => s.get(RAX, home(loc, src)),
        Instr::Retain { src } => s.get(RAX, home(loc, src)),
        Instr::Release { src, bytes } => number(s.get(RAX, home(loc, src)), 6, bytes),
        Instr::Alloc { bytes, .. } => number(s, 6, bytes),
        Instr::AllocDyn { bytes, .. } => s.get(RSI, home(loc, bytes)),
        _ => s,
    }
}

broadcast proof fn lemma_get_uses(s: Emit, into: u8, l: Loc)
    ensures
        (#[trigger] s.get(into, l)).uses == s.uses,
        s.get(into, l).calls == s.calls,
{
}

broadcast proof fn lemma_put_uses(s: Emit, from: u8, l: Loc)
    ensures
        (#[trigger] s.put(from, l)).uses == s.uses,
{
}

#[verifier::spinoff_prover]
#[verifier::rlimit(40)]
proof fn lemma_asking(s: Emit, cx: Cx, loc: Seq<Loc>, i: Instr)
    requires
        helper_of(i) is Some,
    ensures
        instr_code(s, cx, loc, i) == match answer_home(loc, i) {
            Some(d) => asking(s, loc, i).call(helper_of(i)->0).put(RAX, d),
            None => asking(s, loc, i).call(helper_of(i)->0),
        },
        asking(s, loc, i).calls == s.calls,
{
    broadcast use {lemma_get_uses, lemma_put_uses};

}

#[verifier::spinoff_prover]
#[verifier::rlimit(40)]
proof fn run_asking(u: Fpu, c: Seq<u8>, s: Emit, loc: Seq<Loc>, i: Instr, m: Cpu) -> (y: Cpu)
    requires
        helper_of(i) is Some,
        agrees(c, s.code.len() as int, asking(s, loc, i).code),
        m.ip == s.code.len(),
        asked_framed(m, loc, i),
    ensures
        reaches(u, c, m, y),
        y.ip == asking(s, loc, i).code.len(),
        quiet(m, y),
        asked_in_rax(loc, i) matches Some(l) ==> y.regs[0] == value(m, l),
        asked_in_rsi(m, loc, i) matches Some(v) ==> y.regs[6] == v,
{
    let at = m.ip;
    let s = s.with(noted(s.uses, i));
    match i {
        Instr::WriteInt { src } => run_get(u, c, s, RAX, home(loc, src), m),
        Instr::EWriteInt { src } => run_get(u, c, s, RAX, home(loc, src), m),
        Instr::Retain { src } => run_get(u, c, s, RAX, home(loc, src), m),
        Instr::Release { src, bytes } => {
            let g = s.get(RAX, home(loc, src));
            lemma_number_front(c, at, g, 6, bytes);
            lemma_get_front(c, at, s, RAX, home(loc, src));
            let w = run_get(u, c, s, RAX, home(loc, src), m);
            let y = run_number(u, c, g, 6, bytes, w);
            lemma_onward(u, c, m, w, y);
            y
        },
        Instr::Alloc { bytes, .. } => run_number(u, c, s, 6, bytes, m),
        Instr::AllocDyn { bytes, .. } => run_get(u, c, s, RSI, home(loc, bytes), m),
        _ => {
            lemma_here(u, c, m);
            m
        },
    }
}

proof fn lemma_asking_front(s: Emit, loc: Seq<Loc>, i: Instr)
    ensures
        agrees(asking(s, loc, i).code, 0, s.code),
        s.code.len() <= asking(s, loc, i).code.len(),
{
    let e = asking(s, loc, i).code;
    let s = s.with(noted(s.uses, i));
    assert(agrees(e, 0, e));
    match i {
        Instr::WriteInt { src } => lemma_get_front(e, 0, s, RAX, home(loc, src)),
        Instr::EWriteInt { src } => lemma_get_front(e, 0, s, RAX, home(loc, src)),
        Instr::Retain { src } => lemma_get_front(e, 0, s, RAX, home(loc, src)),
        Instr::Release { src, bytes } => {
            lemma_number_front(e, 0, s.get(RAX, home(loc, src)), 6, bytes);
            lemma_get_front(e, 0, s, RAX, home(loc, src));
        },
        Instr::Alloc { bytes, .. } => lemma_number_front(e, 0, s, 6, bytes),
        Instr::AllocDyn { bytes, .. } => lemma_get_front(e, 0, s, RSI, home(loc, bytes)),
        _ => {},
    }
}

/// An instruction that asks the runtime leaves for the helper that serves it,
/// with what it works on in `rax` and sizes in `rsi`; nothing else changes
/// that outlives an instruction. When the helper comes back, its answer goes
/// from `rax` into the destination, where there is one.
#[verifier::spinoff_prover]
#[verifier::rlimit(40)]
pub proof fn helpers_are_asked(
    u: Fpu,
    c: Seq<u8>,
    s: Emit,
    cx: Cx,
    loc: Seq<Loc>,
    i: Instr,
    m: Cpu,
) -> (y: Cpu)
    requires
        helper_of(i) is Some,
        instr_code(s, cx, loc, i).code.len() <= usize::MAX,
        agrees_around(
            c,
            s.code.len() as int,
            instr_code(s, cx, loc, i).code,
            instr_code(s, cx, loc, i).calls.last().0 as int,
            4,
        ),
        m.ip == s.code.len(),
        asked_framed(m, loc, i),
    ensures
        reaches(u, c, m, y),
        quiet(m, y),
        asked_in_rax(loc, i) matches Some(l) ==> y.regs[0] == value(m, l),
        asked_in_rsi(m, loc, i) matches Some(v) ==> y.regs[6] == v,
        c[y.ip] == 0xE8,
        instr_code(s, cx, loc, i).calls == s.calls.push(
            ((y.ip + 1) as usize, helper_of(i)->0),
        ),
        answer_home(loc, i) is None ==> instr_code(s, cx, loc, i).code.len() == y.ip + 5,
        answer_home(loc, i) matches Some(d) ==> forall|z: Cpu|
            z.ip == y.ip + 5 && in_frame(z, d) ==> #[trigger] comes_home(
                u,
                c,
                z,
                instr_code(s, cx, loc, i).code.len() as int,
                d,
                0,
            ),
{
    let at = m.ip;
    let p = asking(s, loc, i);
    let target = helper_of(i)->0;
    let e = instr_code(s, cx, loc, i);
    lemma_asking(s, cx, loc, i);
    lemma_asking_front(s, loc, i);
    let k = p.call(target);
    let q = p.code.len() as int;
    assert(k.code.len() == q + 5);
    match answer_home(loc, i) {
        Some(d) => {
            assert(e == calling(p, target, 0, d));
            lemma_long(p, target, 0, d);
            assert(e.calls.last().0 == q + 1);
            lemma_calling(c, at, p, target, 0, d);
            let y = run_asking(u, c, s, loc, i, m);
            assert forall|z: Cpu| z.ip == y.ip + 5 && in_frame(z, d) implies #[trigger] comes_home(
                u,
                c,
                z,
                e.code.len() as int,
                d,
                0,
            ) by {
                let back = run_back(u, c, k, 0, d, z);
                assert(reaches(u, c, z, back));
            }
            y
        },
        None => {
            assert(e == k);
            assert(e.calls.last().0 == q + 1);
            assert(agrees(e.code, 0, p.code));
            lemma_before_gap(c, at, p.code, e.code, q + 1, 4);
            assert(e.code[q] == 0xE8);
            assert(c[q] == e.code[q]);
            run_asking(u, c, s, loc, i, m)
        },
    }
}

// ---- the system

/// Whether `y` stands before a system call with the number and the first
/// three arguments given.
pub open spec fn asks_system(c: Seq<u8>, y: Cpu, nr: u64, a: u64, b: u64, d: u64) -> bool {
    &&& decode(c, y.ip).0 is Syscall
    &&& y.regs[0] == nr
    &&& y.regs[7] == a
    &&& y.regs[6] == b
    &&& y.regs[2] == d
}

proof fn decode_text(c: Seq<u8>, s: Emit)
    requires
        agrees(
            c,
            s.code.len() as int,
            s.raw(seq![0x48, 0x8B, 0x16]).raw(seq![0x48, 0x83, 0xC6, 0x10]).code,
        ),
    ensures
        decode(c, s.code.len() as int) == (
            Op::Mov {
                to: Place::Reg(2),
                from: Place::Mem { base: 6, index: -1, scale: 1, disp: 0 },
            },
            s.code.len() as int + 3,
        ),
        decode(c, s.code.len() as int + 3) == (
            Op::Arith {
                f: Alu::Plus,
                wide: true,
                keep: true,
                to: Place::Reg(6),
                from: Place::Imm(16),
            },
            s.code.len() as int + 7,
        ),
{
    let at = s.code.len() as int;
    let a = seq![0x48u8, 0x8B, 0x16];
    let b = seq![0x48u8, 0x83, 0xC6, 0x10];
    lemma_front(c, at, s.raw(a), b);
    lemma_front(c, at, s, a);
    assert(c[at + 0] == a[0] && c[at + 1] == a[1] && c[at + 2] == a[2]);
    assert(c[at + 3 + 0] == b[0] && c[at + 3 + 1] == b[1] && c[at + 3 + 2] == b[2] && c[at + 3 + 3]
        == b[3]);
    assert(rex(true, false, false) == 0x48 && modrm(3, 0, 6) == 0xC6 && modrm(0, 2, 6) == 0x16);
    lemma_rex(c, at, true, false, false);
    lemma_rex(c, at + 3, true, false, false);
    lemma_modrm(0, 2, 6);
    lemma_reg_operand(c, prefixes(c, at + 3), at + 5, 0, 6);
    assert(wrap64(signed8(0x10)) == 16);
    reveal(decode);
}

/// `mov rdx, [rsi]`, `add rsi, 16`
#[verifier::spinoff_prover]
#[verifier::rlimit(40)]
proof fn run_text(u: Fpu, c: Seq<u8>, g: Emit, m: Cpu) -> (x: Cpu)
    requires
        agrees(
            c,
            g.code.len() as int,
            g.raw(seq![0x48, 0x8B, 0x16]).raw(seq![0x48, 0x83, 0xC6, 0x10]).code,
        ),
        m.ip == g.code.len(),
    ensures
        reaches(u, c, m, x),
        x.ip == g.code.len() + 7,
        x.regs == m.regs.insert(2, read64(m.mem, m.regs[6] as int)).insert(
            6,
            wrap64(m.regs[6] + 16),
        ),
        x.mem == m.mem,
{
    decode_text(c, g);
    let a = run_size(u, c, m);
    let x = run_past(u, c, a);
    lemma_onward(u, c, m, a, x);
    x
}

proof fn run_size(u: Fpu, c: Seq<u8>, m: Cpu) -> (x: Cpu)
    requires
        decode(c, m.ip) == (
            Op::Mov {
                to: Place::Reg(2),
                from: Place::Mem { base: 6, index: -1, scale: 1, disp: 0 },
            },
            m.ip + 3,
        ),
    ensures
        reaches(u, c, m, x),
        x.ip == m.ip + 3,
        x.regs == m.regs.insert(2, read64(m.mem, m.regs[6] as int)),
        x.mem == m.mem,
{
    run_op(
        u,
        c,
        m,
        Op::Mov {
            to: Place::Reg(2),
            from: Place::Mem { base: 6, index: -1, scale: 1, disp: 0 },
        },
        m.ip + 3,
    )
}

proof fn run_past(u: Fpu, c: Seq<u8>, m: Cpu) -> (x: Cpu)
    requires
        decode(c, m.ip) == (
            Op::Arith {
                f: Alu::Plus,
                wide: true,
                keep: true,
                to: Place::Reg(6),
                from: Place::Imm(16),
            },
            m.ip + 4,
        ),
    ensures
        reaches(u, c, m, x),
        x.ip == m.ip + 4,
        x.regs == m.regs.insert(6, wrap64(m.regs[6] + 16)),
        x.mem == m.mem,
{
    run_op(
        u,
        c,
        m,
        Op::Arith {
            f: Alu::Plus,
            wide: true,
            keep: true,
            to: Place::Reg(6),
            from: Place::Imm(16),
        },
        m.ip + 4,
    )
}

/// Writing a string object asks the system to write to standard output, from
/// behind the object's header, as many bytes as its first word says.
#[verifier::spinoff_prover]
#[verifier::rlimit(40)]
pub proof fn string_objects_are_written(
    u: Fpu,
    c: Seq<u8>,
    s: Emit,
    cx: Cx,
    loc: Seq<Loc>,
    i: Instr,
    m: Cpu,
) -> (y: Cpu)
    requires
        i is WriteString,
        agrees(c, s.code.len() as int, instr_code(s, cx, loc, i).code),
        m.ip == s.code.len(),
        in_frame(m, home(loc, i->WriteString_src)),
    ensures
        reaches(u, c, m, y),
        quiet(m, y),
        ({
            let o = value(m, home(loc, i->WriteString_src));
            asks_system(c, y, 1, 1, wrap64(o + 16), read64(m.mem, o as int))
        }),
        decode(c, y.ip).1 == instr_code(s, cx, loc, i).code.len(),
{
    let at = m.ip;
    let l = home(loc, i->WriteString_src);
    let g = s.get(RSI, l);
    let t = g.raw(seq![0x48, 0x8B, 0x16]).raw(seq![0x48, 0x83, 0xC6, 0x10]);
    let p = number(t, 7, 1);
    let q = number(p, 0, 1);
    assert(instr_code(s, cx, loc, i) == q.raw(seq![0x0F, 0x05]));
    lemma_front(c, at, q, seq![0x0F, 0x05]);
    lemma_number_front(c, at, p, 0, 1);
    lemma_number_front(c, at, t, 7, 1);
    lemma_front(c, at, g.raw(seq![0x48, 0x8B, 0x16]), seq![0x48, 0x83, 0xC6, 0x10]);
    lemma_front(c, at, g, seq![0x48, 0x8B, 0x16]);
    lemma_get_front(c, at, s, RSI, l);
    let w = run_get(u, c, s, RSI, l, m);
    let b = run_text(u, c, g, w);
    lemma_onward(u, c, m, w, b);
    let d = run_number(u, c, t, 7, 1, b);
    lemma_onward(u, c, m, b, d);
    let y = run_number(u, c, p, 0, 1, d);
    lemma_onward(u, c, m, d, y);
    decode_syscall(c, q);
    y
}

/// Where a literal goes: standard output or standard error.
pub open spec fn literal_of(i: Instr) -> Option<(u64, u32, u32)> {
    match i {
        Instr::WriteStr { off, len } => Some((1, off, len)),
        Instr::EWriteStr { off, len } => Some((2, off, len)),
        _ => None,
    }
}

/// Writing a literal asks the system to write its length in bytes from the
/// address that its window holds when the code runs; and the window is
/// recorded as one to be filled with the address of the literal.
#[verifier::spinoff_prover]
#[verifier::rlimit(40)]
pub proof fn literals_are_written(
    u: Fpu,
    c: Seq<u8>,
    s: Emit,
    cx: Cx,
    loc: Seq<Loc>,
    i: Instr,
    m: Cpu,
) -> (y: Cpu)
    requires
        literal_of(i) is Some,
        agrees_around(
            c,
            s.code.len() as int,
            instr_code(s, cx, loc, i).code,
            s.code.len() as int + 7,
            8,
        ),
        m.ip == s.code.len(),
    ensures
        reaches(u, c, m, y),
        quiet(m, y),
        ({
            let (fd, off, len) = literal_of(i)->0;
            &&& asks_system(c, y, 1, fd, u64_at(c, s.code.len() as int + 7), len as u64)
            &&& instr_code(s, cx, loc, i).relocs == s.relocs.push(
                Reloc {
                    kind: RelocKind::Abs64,
                    section: Section::Code,
                    site: (s.code.len() + 7) as usize,
                    sym: Sym::String(off as usize),
                },
            )
        }),
        decode(c, y.ip).1 == instr_code(s, cx, loc, i).code.len(),
{
    let at = m.ip;
    let (fd, off, len) = literal_of(i)->0;
    let fd = fd as u32;
    let f = number(s, 7, fd);
    let w = f.window(RSI, Sym::String(off as usize));
    let p = number(w, 2, len);
    let q = number(p, 0, 1);
    let e = q.raw(seq![0x0F, 0x05]);
    assert(instr_code(s, cx, loc, i) == e);
    assert(agrees(e.code, 0, e.code));
    lemma_front(e.code, 0, q, seq![0x0F, 0x05]);
    lemma_number_front(e.code, 0, p, 0, 1);
    lemma_number_front(e.code, 0, w, 2, len);
    assert(f.code.len() == at + 5);
    assert(w.code.len() == at + 15);
    assert forall|j: int| 0 <= j < f.code.len() implies #[trigger] e.code[j] == f.code[j] by {
        assert(w.code[j] == f.code[j]);
    }
    lemma_before_gap(c, at, f.code, e.code, at + 7, 8);
    let a = run_number(u, c, s, 7, fd, m);
    assert(w.code[at + 5] == 0x48 && w.code[at + 6] == 0xBE);
    assert(e.code[at + 5] == w.code[at + 5] && e.code[at + 6] == w.code[at + 6]);
    assert(c[at + 5] == e.code[at + 5] && c[at + 6] == e.code[at + 6]);
    assert(decode(c, at + 5) == (
        Op::Mov { to: Place::Reg(6), from: Place::Imm(u64_at(c, at + 7)) },
        at + 15,
    )) by {
        reveal(decode);
    }
    let b = run_op(
        u,
        c,
        a,
        Op::Mov { to: Place::Reg(6), from: Place::Imm(u64_at(c, at + 7)) },
        at + 15,
    );
    lemma_onward(u, c, m, a, b);
    assert(agrees(c, at + 15, e.code));
    lemma_front(c, at + 15, q, seq![0x0F, 0x05]);
    lemma_number_front(c, at + 15, p, 0, 1);
    let d = run_number(u, c, w, 2, len, b);
    lemma_onward(u, c, m, b, d);
    let y = run_number(u, c, p, 0, 1, d);
    lemma_onward(u, c, m, d, y);
    decode_syscall(c, q);
    y
}

/// The status that the process ends with.
pub open spec fn status(m: Cpu, loc: Seq<Loc>, t: Terminator) -> Option<u64> {
    match t {
        Terminator::Exit => Some(0),
        Terminator::ExitWith(v) => Some(value(m, home(loc, v))),
        _ => None,
    }
}

/// A block that ends the process asks the system to end all its threads, with
/// its status.
#[verifier::spinoff_prover]
#[verifier::rlimit(40)]
pub proof fn exits_end_the_process(
    u: Fpu,
    c: Seq<u8>,
    e: Emit,
    loc: Seq<Loc>,
    regs: Seq<Phys>,
    t: Terminator,
    m: Cpu,
) -> (y: Cpu)
    requires
        status(m, loc, t) is Some,
        agrees(
            c,
            e.code.len() as int,
            term_code(
                Laid { s: e, starts: Seq::empty(), jumps: Seq::empty() },
                loc,
                regs,
                t,
            ).s.code,
        ),
        m.ip == e.code.len(),
        t matches Terminator::ExitWith(v) ==> in_frame(m, home(loc, v)),
    ensures
        reaches(u, c, m, y),
        quiet(m, y),
        decode(c, y.ip).0 is Syscall,
        y.regs[0] == 231,
        y.regs[7] == status(m, loc, t)->0,
{
    let at = m.ip;
    match t {
        Terminator::ExitWith(v) => {
            let g = e.get(RDI, home(loc, v));
            let n = number(g, 0, 231);
            lemma_front(c, at, n, seq![0x0F, 0x05]);
            lemma_number_front(c, at, g, 0, 231);
            lemma_get_front(c, at, e, RDI, home(loc, v));
            let w = run_get(u, c, e, RDI, home(loc, v), m);
            let y = run_number(u, c, g, 0, 231, w);
            lemma_onward(u, c, m, w, y);
            decode_syscall(c, n);
            y
        },
        _ => {
            let n = number(e, 0, 231);
            let z = n.raw(seq![0x31, 0xFF]);
            lemma_front(c, at, z, seq![0x0F, 0x05]);
            lemma_front(c, at, n, seq![0x31, 0xFF]);
            lemma_number_front(c, at, e, 0, 231);
            let w = run_number(u, c, e, 0, 231, m);
            let y = run_clear(u, c, n, w);
            lemma_onward(u, c, m, w, y);
            decode_syscall(c, z);
            y
        },
    }
}

/// A block that throws leaves for the runtime with the exception in `rdi`; one
/// that throws on leaves for it as it is.
pub proof fn throws_leave_for_the_runtime(
    u: Fpu,
    c: Seq<u8>,
    e: Emit,
    loc: Seq<Loc>,
    regs: Seq<Phys>,
    t: Terminator,
    m: Cpu,
) -> (y: Cpu)
    requires
        t is Unwind || t is Rethrow,
        ({
            let k = term_code(
                Laid { s: e, starts: Seq::empty(), jumps: Seq::empty() },
                loc,
                regs,
                t,
            ).s.code;
            agrees_around(c, e.code.len() as int, k, k.len() - 4, 4)
        }),
        m.ip == e.code.len(),
        t matches Terminator::Unwind { src } ==> in_frame(m, home(loc, src)),
    ensures
        reaches(u, c, m, y),
        quiet(m, y),
        t matches Terminator::Unwind { src } ==> y.regs[7] == value(m, home(loc, src)),
        c[y.ip] == 0xE8,
        term_code(
            Laid { s: e, starts: Seq::empty(), jumps: Seq::empty() },
            loc,
            regs,
            t,
        ).s.calls.last() == (
            (y.ip + 1) as usize,
            if t is Unwind {
                CallTarget::HelperExcThrow
            } else {
                CallTarget::HelperExcRethrow
            },
        ),
{
    let at = m.ip;
    let target = if t is Unwind {
        CallTarget::HelperExcThrow
    } else {
        CallTarget::HelperExcRethrow
    };
    let g = match t {
        Terminator::Unwind { src } => e.get(RDI, home(loc, src)),
        _ => e,
    };
    let k = g.call(target);
    let q = g.code.len() as int;
    assert(k.code.len() == q + 5);
    assert(k.code[q] == 0xE8);
    assert(agrees(g.code, 0, g.code));
    if let Terminator::Unwind { src } = t {
        lemma_get_front(g.code, 0, e, RDI, home(loc, src));
    }
    assert(c[q] == k.code[q]);
    assert(agrees(k.code, 0, g.code));
    lemma_before_gap(c, at, g.code, k.code, q + 1, 4);
    match t {
        Terminator::Unwind { src } => run_get(u, c, e, RDI, home(loc, src), m),
        _ => {
            lemma_here(u, c, m);
            m
        },
    }
}

} // verus!
