//! What the processor does with the code that reaches memory: loads and
//! stores through a base, and the addresses of things in the program.
use crate::bytes::{le32, u64_at};
use crate::ir::Instr;
use crate::target::{Reloc, RelocKind, Section, Sym};
use crate::x86::arithmetic::{lemma_becomes_reg, run_op};
use crate::x86::emit::{modrm, rex, Emit, R10, R11, RAX};
use crate::x86::fragments::{
    agrees, becomes, in_frame, lemma_becomes, lemma_front, lemma_get_front, lemma_imm32,
    lemma_modrm, lemma_put_front, lemma_quiet, lemma_rex, quiet, run_get, run_put, set_reg, value,
};
use crate::x86::instrs::{
    field_load, field_load_byte, field_operand, field_store, home, instr_code, load_code, Cx,
};
use crate::x86::machine::{
    decode, field, lemma_onward, operand, prefixes, reaches, read64, signed32, signed8, wrap64,
    write64, Cpu, Fpu, Op, Place, Pre,
};
use crate::x86::regalloc::Loc;
use vstd::prelude::*;

verus! {

/// The address `off`, a signed distance, behind `base`.
pub open spec fn behind(base: u64, off: u32) -> int {
    wrap64(base + signed32(off)) as int
}

// ---- operands behind `r10`

spec fn at_r10(off: u32) -> Place {
    Place::Mem { base: 10, index: -1, scale: 1, disp: signed32(off) }
}

proof fn lemma_field_front(c: Seq<u8>, from: int, s: Emit, reg: u8, off: u32)
    requires
        agrees(c, from, field_operand(s, reg, off).code),
    ensures
        agrees(c, from, s.code),
        s.code.len() < field_operand(s, reg, off).code.len(),
        from <= s.code.len() ==> agrees(
            c,
            s.code.len() as int,
            field_operand(s, reg, off).code,
        ),
{
    if off <= 120 {
        lemma_front(c, from, s, seq![modrm(1, reg, 2), off as u8]);
    } else if off >= 0xFFFF_FF88 {
        lemma_front(c, from, s, seq![modrm(1, reg, 2), (off - 0xFFFF_FF00) as u8]);
    } else {
        let head = s.raw(seq![modrm(2, reg, 2)]);
        lemma_front(c, from, head, le32(off));
        lemma_front(c, from, s, seq![modrm(2, reg, 2)]);
    }
}

proof fn lemma_field_operand(c: Seq<u8>, p: Pre, s: Emit, reg: u8, off: u32)
    requires
        agrees(c, s.code.len() as int, field_operand(s, reg, off).code),
        p.b == 8,
    ensures
        operand(c, p, s.code.len() as int) == (
            at_r10(off),
            field_operand(s, reg, off).code.len() as int,
        ),
        field(c, s.code.len() as int) == reg % 8,
{
    let at = s.code.len() as int;
    if off <= 120 {
        let b = seq![modrm(1, reg, 2), off as u8];
        lemma_front(c, at, s, b);
        assert(c[at + 0] == b[0] && c[at + 1] == b[1]);
        lemma_modrm(1, reg, 2);
        assert(signed8(off as u8) == signed32(off));
    } else if off >= 0xFFFF_FF88 {
        let b = seq![modrm(1, reg, 2), (off - 0xFFFF_FF00) as u8];
        lemma_front(c, at, s, b);
        assert(c[at + 0] == b[0] && c[at + 1] == b[1]);
        lemma_modrm(1, reg, 2);
        assert(signed8((off - 0xFFFF_FF00) as u8) == signed32(off));
    } else {
        let head = s.raw(seq![modrm(2, reg, 2)]);
        lemma_front(c, at, head, le32(off));
        lemma_front(c, at, s, seq![modrm(2, reg, 2)]);
        assert(c[at + 0] == seq![modrm(2, reg, 2)][0]);
        lemma_modrm(2, reg, 2);
        lemma_imm32(c, head, off);
    }
}

proof fn decode_load(c: Seq<u8>, s: Emit, dst: u8, off: u32)
    requires
        agrees(c, s.code.len() as int, field_load(s, dst, off).code),
        dst < 16,
    ensures
        decode(c, s.code.len() as int) == (
            Op::Mov { to: Place::Reg(dst as int), from: at_r10(off) },
            field_load(s, dst, off).code.len() as int,
        ),
{
    let at = s.code.len() as int;
    let b = seq![rex(true, dst >= 8, true), 0x8B];
    lemma_field_front(c, at, s.raw(b), dst, off);
    lemma_front(c, at, s, b);
    assert(c[at + 0] == b[0] && c[at + 1] == b[1]);
    lemma_rex(c, at, true, dst >= 8, true);
    lemma_field_operand(c, prefixes(c, at), s.raw(b), dst, off);
    reveal(decode);
}

proof fn decode_load_byte(c: Seq<u8>, s: Emit, dst: u8, off: u32)
    requires
        agrees(c, s.code.len() as int, field_load_byte(s, dst, off).code),
        dst < 16,
    ensures
        decode(c, s.code.len() as int) == (
            Op::Widen { to: dst as int, from: at_r10(off) },
            field_load_byte(s, dst, off).code.len() as int,
        ),
{
    let at = s.code.len() as int;
    let b = seq![rex(true, dst >= 8, true), 0x0F, 0xB6];
    lemma_field_front(c, at, s.raw(b), dst, off);
    lemma_front(c, at, s, b);
    assert(c[at + 0] == b[0] && c[at + 1] == b[1] && c[at + 2] == b[2]);
    lemma_rex(c, at, true, dst >= 8, true);
    lemma_field_operand(c, prefixes(c, at), s.raw(b), dst, off);
    reveal(decode);
}

proof fn decode_store(c: Seq<u8>, s: Emit, off: u32)
    requires
        agrees(c, s.code.len() as int, field_store(s, off).code),
    ensures
        decode(c, s.code.len() as int) == (
            Op::Mov { to: at_r10(off), from: Place::Reg(11) },
            field_store(s, off).code.len() as int,
        ),
{
    let at = s.code.len() as int;
    let b = seq![rex(true, true, true), 0x89];
    lemma_field_front(c, at, s.raw(b), R11, off);
    lemma_front(c, at, s, b);
    assert(c[at + 0] == b[0] && c[at + 1] == b[1]);
    lemma_rex(c, at, true, true, true);
    lemma_field_operand(c, prefixes(c, at), s.raw(b), R11, off);
    reveal(decode);
}

proof fn run_load(u: Fpu, c: Seq<u8>, s: Emit, dst: u8, off: u32, m: Cpu) -> (x: Cpu)
    requires
        agrees(c, s.code.len() as int, field_load(s, dst, off).code),
        m.ip == s.code.len(),
        dst < 16,
    ensures
        reaches(u, c, m, x),
        x.ip == field_load(s, dst, off).code.len(),
        set_reg(m, x, dst as int, read64(m.mem, behind(m.regs[10], off))),
{
    decode_load(c, s, dst, off);
    run_op(
        u,
        c,
        m,
        Op::Mov { to: Place::Reg(dst as int), from: at_r10(off) },
        field_load(s, dst, off).code.len() as int,
    )
}

proof fn run_load_byte(u: Fpu, c: Seq<u8>, s: Emit, dst: u8, off: u32, m: Cpu) -> (x: Cpu)
    requires
        agrees(c, s.code.len() as int, field_load_byte(s, dst, off).code),
        m.ip == s.code.len(),
        dst < 16,
    ensures
        reaches(u, c, m, x),
        x.ip == field_load_byte(s, dst, off).code.len(),
        set_reg(m, x, dst as int, m.mem[behind(m.regs[10], off)] as u64),
{
    decode_load_byte(c, s, dst, off);
    run_op(
        u,
        c,
        m,
        Op::Widen { to: dst as int, from: at_r10(off) },
        field_load_byte(s, dst, off).code.len() as int,
    )
}

/// The value that a load finds: eight bytes, or one that is zero-extended.
pub open spec fn loaded_value(mem: Map<int, u8>, a: int, byte: bool) -> u64 {
    if byte {
        mem[a] as u64
    } else {
        read64(mem, a)
    }
}

proof fn run_either(
    u: Fpu,
    c: Seq<u8>,
    s: Emit,
    dst: u8,
    off: u32,
    byte: bool,
    m: Cpu,
) -> (x: Cpu)
    requires
        byte ==> agrees(c, s.code.len() as int, field_load_byte(s, dst, off).code),
        !byte ==> agrees(c, s.code.len() as int, field_load(s, dst, off).code),
        m.ip == s.code.len(),
        dst < 16,
    ensures
        reaches(u, c, m, x),
        x.ip == if byte {
            field_load_byte(s, dst, off).code.len()
        } else {
            field_load(s, dst, off).code.len()
        },
        set_reg(m, x, dst as int, loaded_value(m.mem, behind(m.regs[10], off), byte)),
{
    if byte {
        run_load_byte(u, c, s, dst, off, m)
    } else {
        run_load(u, c, s, dst, off, m)
    }
}

#[verifier::rlimit(40)]
proof fn run_load_code(
    u: Fpu,
    c: Seq<u8>,
    s: Emit,
    d: Loc,
    base: Loc,
    off: u32,
    byte: bool,
    m: Cpu,
) -> (x: Cpu)
    requires
        agrees(c, s.code.len() as int, load_code(s, d, base, off, byte).code),
        m.ip == s.code.len(),
        in_frame(m, d),
        in_frame(m, base),
    ensures
        reaches(u, c, m, x),
        x.ip == load_code(s, d, base, off, byte).code.len(),
        becomes(m, x, d, loaded_value(m.mem, behind(value(m, base), off), byte)),
{
    let at = m.ip;
    let g = s.get(R10, base);
    let reg = match d {
        Loc::Reg(r) => r.number(),
        Loc::Slot(_) => RAX,
    };
    let l = if byte {
        field_load_byte(g, reg, off)
    } else {
        field_load(g, reg, off)
    };
    let b = if byte {
        seq![rex(true, reg >= 8, true), 0x0F, 0xB6]
    } else {
        seq![rex(true, reg >= 8, true), 0x8B]
    };
    if let Loc::Slot(_) = d {
        lemma_put_front(c, at, l, RAX, d);
    }
    assert(l == field_operand(g.raw(b), reg, off));
    lemma_field_front(c, at, g.raw(b), reg, off);
    lemma_front(c, at, g, b);
    lemma_get_front(c, at, s, R10, base);
    let y = run_get(u, c, s, R10, base, m);
    let z = run_either(u, c, g, reg, off, byte, y);
    lemma_onward(u, c, m, y, z);
    let v = loaded_value(m.mem, behind(value(m, base), off), byte);
    match d {
        Loc::Reg(r) => {
            lemma_becomes_reg(m, z, r, v);
            z
        },
        Loc::Slot(_) => {
            assert(quiet(m, z));
            lemma_quiet(m, z, d);
            let x = run_put(u, c, l, RAX, d, z);
            lemma_onward(u, c, m, z, x);
            lemma_becomes(m, z, x, d, v);
            x
        },
    }
}

/// A load leaves in its destination what memory holds at the signed distance
/// behind the base: eight bytes, or one byte with zeros above it.
pub proof fn loads_read_behind_their_base(
    u: Fpu,
    c: Seq<u8>,
    s: Emit,
    cx: Cx,
    loc: Seq<Loc>,
    i: Instr,
    m: Cpu,
) -> (x: Cpu)
    requires
        agrees(c, s.code.len() as int, instr_code(s, cx, loc, i).code),
        m.ip == s.code.len(),
        match i {
            Instr::LoadField { dst, base, .. } => in_frame(m, home(loc, dst)) && in_frame(
                m,
                home(loc, base),
            ),
            Instr::LoadByte { dst, base, .. } => in_frame(m, home(loc, dst)) && in_frame(
                m,
                home(loc, base),
            ),
            _ => false,
        },
    ensures
        reaches(u, c, m, x),
        x.ip == instr_code(s, cx, loc, i).code.len(),
        match i {
            Instr::LoadField { dst, base, off } => becomes(
                m,
                x,
                home(loc, dst),
                read64(m.mem, behind(value(m, home(loc, base)), off)),
            ),
            Instr::LoadByte { dst, base, off } => becomes(
                m,
                x,
                home(loc, dst),
                m.mem[behind(value(m, home(loc, base)), off)] as u64,
            ),
            _ => false,
        },
{
    match i {
        Instr::LoadField { dst, base, off } => run_load_code(
            u,
            c,
            s,
            home(loc, dst),
            home(loc, base),
            off,
            false,
            m,
        ),
        Instr::LoadByte { dst, base, off } => run_load_code(
            u,
            c,
            s,
            home(loc, dst),
            home(loc, base),
            off,
            true,
            m,
        ),
        _ => m,
    }
}

/// A store leaves its source at the signed distance behind the base, and
/// changes nothing else in memory and no register that a value lives in.
#[verifier::rlimit(40)]
pub proof fn stores_write_behind_their_base(
    u: Fpu,
    c: Seq<u8>,
    s: Emit,
    cx: Cx,
    loc: Seq<Loc>,
    i: Instr,
    m: Cpu,
) -> (x: Cpu)
    requires
        agrees(c, s.code.len() as int, instr_code(s, cx, loc, i).code),
        m.ip == s.code.len(),
        i is StoreField,
        in_frame(m, home(loc, i->StoreField_base)),
        in_frame(m, home(loc, i->StoreField_src)),
    ensures
        reaches(u, c, m, x),
        x.ip == instr_code(s, cx, loc, i).code.len(),
        x.mem == write64(
            m.mem,
            behind(value(m, home(loc, i->StoreField_base)), i->StoreField_off),
            value(m, home(loc, i->StoreField_src)),
        ),
        quiet(m, Cpu { mem: m.mem, ..x }),
{
    let at = m.ip;
    let base = home(loc, i->StoreField_base);
    let src = home(loc, i->StoreField_src);
    let off = i->StoreField_off;
    let b = seq![rex(true, true, true), 0x89];
    let g = s.get(R10, base);
    let h = g.get(R11, src);
    lemma_field_front(c, at, h.raw(b), R11, off);
    lemma_front(c, at, h, b);
    lemma_get_front(c, at, g, R11, src);
    lemma_get_front(c, at, s, R10, base);
    let y = run_get(u, c, s, R10, base, m);
    lemma_quiet(m, y, src);
    let z = run_get(u, c, g, R11, src, y);
    lemma_onward(u, c, m, y, z);
    decode_store(c, h, off);
    let x = run_op(
        u,
        c,
        z,
        Op::Mov { to: at_r10(off), from: Place::Reg(11) },
        field_store(h, off).code.len() as int,
    );
    lemma_onward(u, c, m, z, x);
    x
}

// ---- addresses

/// What an instruction takes the address of.
pub open spec fn addressed(cx: Cx, i: Instr) -> Option<Sym> {
    match i {
        Instr::LoadStrAddr { off, .. } => Some(Sym::String(off as usize)),
        Instr::LoadImport { import, .. } => Some(Sym::Import(import as usize)),
        Instr::VTableAddr { row, .. } => Some(
            Sym::VtableOff(
                if row < cx.vtable_offsets.len() {
                    cx.vtable_offsets[row as int]
                } else {
                    cx.vtable_offsets.last()
                },
            ),
        ),
        Instr::LoadStaticAddr { idx, .. } => Some(
            Sym::Static(
                if idx < cx.statics {
                    idx as usize
                } else if cx.statics > 0 {
                    (cx.statics - 1) as usize
                } else {
                    0
                },
            ),
        ),
        _ => None,
    }
}

/// Whether `c` has the bytes of `e` from `from` on, but for those in a gap.
pub open spec fn agrees_around(c: Seq<u8>, from: int, e: Seq<u8>, gap: int, n: int) -> bool {
    0 <= from && e.len() <= c.len() && forall|i: int|
        from <= i < e.len() && !(gap <= i < gap + n) ==> #[trigger] c[i] == e[i]
}

/// Where the result of an address instruction goes.
pub open spec fn address_home(loc: Seq<Loc>, i: Instr) -> Loc {
    match i {
        Instr::LoadStrAddr { dst, .. } => home(loc, dst),
        Instr::LoadImport { dst, .. } => home(loc, dst),
        Instr::VTableAddr { dst, .. } => home(loc, dst),
        Instr::LoadStaticAddr { dst, .. } => home(loc, dst),
        _ => Loc::Slot(0),
    }
}

#[verifier::rlimit(40)]
proof fn run_window(u: Fpu, c: Seq<u8>, s: Emit, reg: u8, sym: Sym, d: Loc, m: Cpu) -> (x: Cpu)
    requires
        agrees_around(
            c,
            s.code.len() as int,
            s.window(reg, sym).put(reg, d).code,
            s.code.len() as int + 2,
            8,
        ),
        m.ip == s.code.len(),
        in_frame(m, d),
        reg < 8,
        reg != 3,
        reg != 4,
        reg != 5,
    ensures
        reaches(u, c, m, x),
        x.ip == s.window(reg, sym).put(reg, d).code.len(),
        becomes(m, x, d, u64_at(c, s.code.len() as int + 2)),
{
    let at = s.code.len() as int;
    let w = s.window(reg, sym);
    let e = w.put(reg, d);
    assert(w.code.len() == at + 10);
    assert(agrees(e.code, 0, e.code));
    lemma_put_front(e.code, 0, w, reg, d);
    assert(w.code[at] == 0x48 && w.code[at + 1] == 0xB8 + reg);
    assert(c[at] == e.code[at] && c[at + 1] == e.code[at + 1]);
    assert(e.code[at] == w.code[at] && e.code[at + 1] == w.code[at + 1]);
    assert(decode(c, at) == (
        Op::Mov { to: Place::Reg(reg as int), from: Place::Imm(u64_at(c, at + 2)) },
        at + 10,
    )) by {
        reveal(decode);
    }
    let y = run_op(
        u,
        c,
        m,
        Op::Mov { to: Place::Reg(reg as int), from: Place::Imm(u64_at(c, at + 2)) },
        at + 10,
    );
    assert(quiet(m, y));
    lemma_quiet(m, y, d);
    assert(agrees(c, at + 10, e.code));
    let x = run_put(u, c, w, reg, d, y);
    lemma_onward(u, c, m, y, x);
    lemma_becomes(m, y, x, d, u64_at(c, at + 2));
    x
}

/// An instruction that takes an address leaves in its destination what its
/// window holds when the code runs; and the window is recorded as one to be
/// filled with the address of what the instruction names.
pub proof fn addresses_come_from_their_windows(
    u: Fpu,
    c: Seq<u8>,
    s: Emit,
    cx: Cx,
    loc: Seq<Loc>,
    i: Instr,
    m: Cpu,
) -> (x: Cpu)
    requires
        addressed(cx, i) is Some,
        i is VTableAddr ==> cx.vtable_offsets.len() > 0,
        cx.statics >= 0,
        agrees_around(
            c,
            s.code.len() as int,
            instr_code(s, cx, loc, i).code,
            s.code.len() as int + 2,
            8,
        ),
        m.ip == s.code.len(),
        in_frame(m, address_home(loc, i)),
    ensures
        reaches(u, c, m, x),
        x.ip == instr_code(s, cx, loc, i).code.len(),
        becomes(m, x, address_home(loc, i), u64_at(c, s.code.len() as int + 2)),
        instr_code(s, cx, loc, i).relocs == s.relocs.push(
            Reloc {
                kind: RelocKind::Abs64,
                section: Section::Code,
                site: (s.code.len() + 2) as usize,
                sym: addressed(cx, i)->0,
            },
        ),
{
    let d = address_home(loc, i);
    let sym = addressed(cx, i)->0;
    match i {
        Instr::LoadStrAddr { .. } => run_window(u, c, s, 6, sym, d, m),
        Instr::LoadImport { .. } => run_window(u, c, s, 0, sym, d, m),
        Instr::VTableAddr { .. } => run_window(u, c, s, 1, sym, d, m),
        Instr::LoadStaticAddr { .. } => run_window(u, c, s, 1, sym, d, m),
        _ => m,
    }
}

} // verus!
