//! What the processor does with the fragments that code is put together
//! from: moves between registers and the homes of values.
use crate::bytes::{le32, lemma_u32_at, u32_at, wrap32};
use crate::x86::emit::{modrm, rex, Emit, MAX_SLOTS};
use crate::x86::machine::{
    address_of, decode, deliver, fetch, field, lemma_byte_elsewhere, lemma_here,
    lemma_read_elsewhere, lemma_read_written, lemma_step, operand, prefixes, reaches, read64,
    signed32, write64, Cpu, Fpu, Op, Place, Pre,
};
use crate::x86::regalloc::Loc;
use vstd::prelude::*;

verus! {

/// Whether `c` has the bytes of `e` from `from` on, to the end of `e`.
pub open spec fn agrees(c: Seq<u8>, from: int, e: Seq<u8>) -> bool {
    0 <= from && e.len() <= c.len() && forall|i: int|
        from <= i < e.len() ==> #[trigger] c[i] == e[i]
}

/// Address of slot `k` of the frame at `rbp`.
pub open spec fn slot_address(m: Cpu, k: u32) -> int {
    m.regs[5] - 8 * (k + 1)
}

/// The value in home `l`.
pub open spec fn value(m: Cpu, l: Loc) -> u64 {
    match l {
        Loc::Reg(r) => m.regs[r.number() as int],
        Loc::Slot(k) => read64(m.mem, slot_address(m, k)),
    }
}

/// Whether `l` lies below `rbp` without wrapping around.
pub open spec fn in_frame(m: Cpu, l: Loc) -> bool {
    l matches Loc::Slot(k) ==> k < MAX_SLOTS && 8 * (k + 1) <= m.regs[5]
}

/// Whether `x` is `m` with `v` in register `r`, further on in the code.
pub open spec fn set_reg(m: Cpu, x: Cpu, r: int, v: u64) -> bool {
    &&& x.regs[r] == v
    &&& forall|q: int| q != r ==> #[trigger] x.regs[q] == m.regs[q]
    &&& x.mem == m.mem
    &&& x.xmm == m.xmm
    &&& x.flags == m.flags
}

/// Whether `x` is `m` with `v` in home `l`, further on in the code.
pub open spec fn set_home(m: Cpu, x: Cpu, l: Loc, v: u64) -> bool {
    match l {
        Loc::Reg(r) => set_reg(m, x, r.number() as int, v),
        Loc::Slot(k) => {
            &&& x.regs == m.regs
            &&& x.mem == write64(m.mem, slot_address(m, k), v)
            &&& x.xmm == m.xmm
            &&& x.flags == m.flags
        },
    }
}

/// Whether `x` differs from `m` in home `d`, which holds `v`, and otherwise
/// in nothing that outlives an instruction: the homes of other values, the
/// stack and frame pointers, and memory are as they were.
pub open spec fn becomes(m: Cpu, x: Cpu, d: Loc, v: u64) -> bool {
    &&& value(x, d) == v
    &&& forall|l: Loc| l != d && in_frame(m, l) ==> #[trigger] value(x, l) == value(m, l)
    &&& x.regs[4] == m.regs[4]
    &&& x.regs[5] == m.regs[5]
    &&& forall|a: int|
        (d matches Loc::Slot(k) ==> a < slot_address(m, k) || a >= slot_address(m, k) + 8)
            ==> #[trigger] x.mem[a] == m.mem[a]
}

/// Whether homes, stack, frame and memory are all as they were.
pub open spec fn quiet(m: Cpu, x: Cpu) -> bool {
    &&& x.mem == m.mem
    &&& x.regs[3] == m.regs[3]
    &&& x.regs[4] == m.regs[4]
    &&& x.regs[5] == m.regs[5]
    &&& x.regs[12] == m.regs[12]
    &&& x.regs[13] == m.regs[13]
    &&& x.regs[14] == m.regs[14]
    &&& x.regs[15] == m.regs[15]
}

pub proof fn lemma_quiet(m: Cpu, x: Cpu, l: Loc)
    requires
        quiet(m, x),
    ensures
        value(x, l) == value(m, l),
        in_frame(x, l) == in_frame(m, l),
{
}

/// Putting a value into a home changes no other home.
pub proof fn lemma_becomes(m: Cpu, y: Cpu, x: Cpu, d: Loc, v: u64)
    requires
        quiet(m, y),
        set_home(y, x, d, v),
        in_frame(m, d),
    ensures
        becomes(m, x, d, v),
{
    match d {
        Loc::Reg(r) => {
            assert(r.number() != 4 && r.number() != 5);
            assert forall|l: Loc| l != d && in_frame(m, l) implies #[trigger] value(x, l) == value(
                m,
                l,
            ) by {
                if let Loc::Reg(q) = l {
                    assert(q.number() != r.number());
                }
            }
        },
        Loc::Slot(k) => {
            let a = slot_address(m, k);
            lemma_read_written(m.mem, a, v);
            assert forall|l: Loc| l != d && in_frame(m, l) implies #[trigger] value(x, l) == value(
                m,
                l,
            ) by {
                if let Loc::Slot(j) = l {
                    lemma_read_elsewhere(m.mem, a, v, slot_address(m, j));
                }
            }
            assert forall|b: int| b < a || b >= a + 8 implies #[trigger] x.mem[b] == m.mem[b] by {
                lemma_byte_elsewhere(m.mem, a, v, b);
            }
        },
    }
}

// ---- emission only appends

pub broadcast proof fn lemma_front(c: Seq<u8>, from: int, s: Emit, b: Seq<u8>)
    requires
        #[trigger] agrees(c, from, s.raw(b).code),
    ensures
        agrees(c, from, s.code),
        s.raw(b).code.len() == s.code.len() + b.len(),
        from <= s.code.len() ==> forall|i: int|
            0 <= i < b.len() ==> c[s.code.len() + i] == #[trigger] b[i],
{
    assert forall|i: int| from <= i < s.code.len() implies #[trigger] c[i] == s.code[i] by {
        assert(s.raw(b).code[i] == s.code[i]);
    }
    if from <= s.code.len() {
        assert forall|i: int| 0 <= i < b.len() implies c[s.code.len() + i] == #[trigger] b[i] by {
            assert(s.raw(b).code[s.code.len() + i] == b[i]);
        }
    }
}

// ---- reading prefixes and operands

pub proof fn lemma_rex(c: Seq<u8>, at: int, w: bool, r: bool, b: bool)
    requires
        c[at] == rex(w, r, b),
    ensures
        prefixes(c, at) == (Pre {
            double: false,
            any: true,
            wide: w,
            r: if r {
                8
            } else {
                0
            },
            x: 0,
            b: if b {
                8
            } else {
                0
            },
            at: at + 1,
        }),
{
}

pub proof fn lemma_plain(c: Seq<u8>, at: int)
    requires
        c[at] != 0x66,
        c[at] < 0x40 || c[at] >= 0x50,
    ensures
        prefixes(c, at) == (Pre {
            double: false,
            any: false,
            wide: false,
            r: 0,
            x: 0,
            b: 0,
            at,
        }),
{
}

pub proof fn lemma_modrm(mode: u8, reg: u8, rm: u8)
    requires
        mode < 4,
    ensures
        modrm(mode, reg, rm) as int / 64 == mode,
        modrm(mode, reg, rm) as int / 8 % 8 == reg % 8,
        modrm(mode, reg, rm) as int % 8 == rm % 8,
{
}

pub proof fn lemma_reg_operand(c: Seq<u8>, p: Pre, at: int, reg: u8, rm: u8)
    requires
        c[at] == modrm(3, reg, rm),
    ensures
        operand(c, p, at) == (Place::Reg(rm % 8 + p.b), at + 1),
        field(c, at) == reg % 8,
{
    lemma_modrm(3, reg, rm);
}

/// The place that a home is.
pub open spec fn place_of(l: Loc) -> Place {
    match l {
        Loc::Reg(r) => Place::Reg(r.number() as int),
        Loc::Slot(k) => Place::Mem { base: 5, index: -1, scale: 1, disp: -8 * (k + 1) },
    }
}

pub proof fn lemma_slot_operand(c: Seq<u8>, p: Pre, s: Emit, reg: u8, k: u32)
    requires
        agrees(c, s.code.len() as int, s.slot_operand(reg, k).code),
        p.b == 0,
        k < MAX_SLOTS,
    ensures
        operand(c, p, s.code.len() as int) == (
            place_of(Loc::Slot(k)),
            s.slot_operand(reg, k).code.len() as int,
        ),
        field(c, s.code.len() as int) == reg % 8,
{
    let at = s.code.len() as int;
    if k < 15 {
        let b = seq![modrm(1, reg, 5), (0x100 - 8 * (k + 1)) as u8];
        lemma_front(c, at, s, b);
        assert(c[at + 0] == b[0] && c[at + 1] == b[1]);
        lemma_modrm(1, reg, 5);
    } else {
        let d = wrap32(-8 * (k + 1));
        let head = s.raw(seq![modrm(2, reg, 5)]);
        lemma_front(c, at, head, le32(d));
        lemma_front(c, at, s, seq![modrm(2, reg, 5)]);
        assert(c[at + 0] == seq![modrm(2, reg, 5)][0]);
        lemma_modrm(2, reg, 5);
        lemma_imm32(c, head, d);
        assert(signed32(d) == -8 * (k + 1));
    }
}

pub proof fn lemma_imm32(c: Seq<u8>, s: Emit, v: u32)
    requires
        agrees(c, s.code.len() as int, s.imm32(v).code),
    ensures
        u32_at(c, s.code.len() as int) == v,
        s.imm32(v).code.len() == s.code.len() + 4,
{
    let at = s.code.len() as int;
    lemma_front(c, at, s, le32(v));
    assert(c.subrange(at, at + 4) =~= le32(v)) by {
        assert forall|i: int| 0 <= i < 4 implies c.subrange(at, at + 4)[i] == le32(v)[i] by {
            assert(c[at + i] == le32(v)[i]);
        }
    }
    lemma_u32_at(c, at, v);
}

pub proof fn lemma_imm64(c: Seq<u8>, s: Emit, v: u64)
    requires
        agrees(c, s.code.len() as int, s.imm64(v).code),
    ensures
        crate::bytes::u64_at(c, s.code.len() as int) == v,
        s.imm64(v).code.len() == s.code.len() + 8,
{
    let at = s.code.len() as int;
    let b = crate::bytes::le64(v);
    lemma_front(c, at, s, b);
    assert(b.len() == 8);
    assert(c.subrange(at, at + 8) =~= b) by {
        assert forall|i: int| 0 <= i < 8 implies c.subrange(at, at + 8)[i] == b[i] by {
            assert(c[at + i] == b[i]);
        }
    }
    crate::bytes::lemma_u64_at(c, at, v);
}

/// A home read or written as an operand.
pub proof fn lemma_home(m: Cpu, l: Loc, v: u64, next: int)
    requires
        in_frame(m, l),
    ensures
        fetch(m, place_of(l), next) == value(m, l),
        deliver(m, place_of(l), v, next).ip == next,
        set_home(m, deliver(m, place_of(l), v, next), l, v),
{
    if let Loc::Slot(k) = l {
        assert(address_of(m, place_of(l), next) == slot_address(m, k)) by {
            assert(0 <= m.regs[5] - 8 * (k + 1) < 0x1_0000_0000_0000_0000);
        }
    }
}

// ---- moves

pub proof fn run_mov_rr(u: Fpu, c: Seq<u8>, s: Emit, dst: u8, src: u8, m: Cpu) -> (x: Cpu)
    requires
        agrees(c, s.code.len() as int, s.mov_rr(dst, src).code),
        m.ip == s.code.len(),
        dst < 16,
        src < 16,
    ensures
        reaches(u, c, m, x),
        x.ip == s.mov_rr(dst, src).code.len(),
        set_reg(m, x, dst as int, m.regs[src as int]),
{
    let at = m.ip;
    if dst == src {
        lemma_here(u, c, m);
        m
    } else {
        let b = seq![rex(true, src >= 8, dst >= 8), 0x89, modrm(3, src, dst)];
        lemma_front(c, at, s, b);
        assert(c[at + 0] == b[0] && c[at + 1] == b[1] && c[at + 2] == b[2]);
        lemma_rex(c, at, true, src >= 8, dst >= 8);
        let p = prefixes(c, at);
        lemma_reg_operand(c, p, at + 2, src, dst);
        reveal(decode);
        let x = Cpu { regs: m.regs.insert(dst as int, m.regs[src as int]), ip: at + 3, ..m };
        assert(decode(c, at) == (
            Op::Mov { to: Place::Reg(dst as int), from: Place::Reg(src as int) },
            at + 3,
        ));
        lemma_step(u, c, m, x);
        x
    }
}

pub proof fn run_load_slot(u: Fpu, c: Seq<u8>, s: Emit, dst: u8, k: u32, m: Cpu) -> (x: Cpu)
    requires
        agrees(c, s.code.len() as int, s.load_slot(dst, k).code),
        m.ip == s.code.len(),
        dst < 16,
        in_frame(m, Loc::Slot(k)),
    ensures
        reaches(u, c, m, x),
        x.ip == s.load_slot(dst, k).code.len(),
        set_reg(m, x, dst as int, value(m, Loc::Slot(k))),
{
    lemma_decode_load(c, s, dst, k);
    let next = s.load_slot(dst, k).code.len() as int;
    lemma_home(m, Loc::Slot(k), 0, next);
    lemma_mov(u, c, m, Place::Reg(dst as int), place_of(Loc::Slot(k)), next);
    deliver(m, Place::Reg(dst as int), value(m, Loc::Slot(k)), next)
}

proof fn lemma_decode_load(c: Seq<u8>, s: Emit, dst: u8, k: u32)
    requires
        agrees(c, s.code.len() as int, s.load_slot(dst, k).code),
        dst < 16,
        k < MAX_SLOTS,
    ensures
        decode(c, s.code.len() as int) == (
            Op::Mov { to: Place::Reg(dst as int), from: place_of(Loc::Slot(k)) },
            s.load_slot(dst, k).code.len() as int,
        ),
{
    let at = s.code.len() as int;
    let b = seq![rex(true, dst >= 8, false), 0x8B];
    let head = s.raw(b);
    lemma_slot_front(c, at, head, dst, k);
    lemma_front(c, at, s, b);
    assert(c[at + 0] == b[0] && c[at + 1] == b[1]);
    lemma_rex(c, at, true, dst >= 8, false);
    lemma_slot_operand(c, prefixes(c, at), head, dst, k);
    reveal(decode);
}

/// What a slot operand is appended to.
pub proof fn lemma_slot_front(c: Seq<u8>, from: int, s: Emit, reg: u8, k: u32)
    requires
        agrees(c, from, s.slot_operand(reg, k).code),
    ensures
        agrees(c, from, s.code),
        s.code.len() < s.slot_operand(reg, k).code.len(),
        agrees(c, s.code.len() as int, s.slot_operand(reg, k).code) || from > s.code.len(),
{
    if k < 15 {
        lemma_front(c, from, s, seq![modrm(1, reg, 5), (0x100 - 8 * (k + 1)) as u8]);
    } else {
        let head = s.raw(seq![modrm(2, reg, 5)]);
        lemma_front(c, from, head, le32(wrap32(-8 * (k + 1))));
        lemma_front(c, from, s, seq![modrm(2, reg, 5)]);
    }
}

pub proof fn run_store_slot(u: Fpu, c: Seq<u8>, s: Emit, k: u32, src: u8, m: Cpu) -> (x: Cpu)
    requires
        agrees(c, s.code.len() as int, s.store_slot(k, src).code),
        m.ip == s.code.len(),
        src < 16,
        in_frame(m, Loc::Slot(k)),
    ensures
        reaches(u, c, m, x),
        x.ip == s.store_slot(k, src).code.len(),
        set_home(m, x, Loc::Slot(k), m.regs[src as int]),
{
    let at = m.ip;
    lemma_decode_store(c, s, k, src);
    let next = s.store_slot(k, src).code.len() as int;
    let v = m.regs[src as int];
    lemma_home(m, Loc::Slot(k), v, next);
    let x = deliver(m, place_of(Loc::Slot(k)), v, next);
    lemma_mov(u, c, m, place_of(Loc::Slot(k)), Place::Reg(src as int), next);
    x
}

proof fn lemma_mov(u: Fpu, c: Seq<u8>, m: Cpu, to: Place, from: Place, next: int)
    requires
        decode(c, m.ip) == (Op::Mov { to, from }, next),
    ensures
        reaches(u, c, m, deliver(m, to, fetch(m, from, next), next)),
{
    lemma_step(u, c, m, deliver(m, to, fetch(m, from, next), next));
}

proof fn lemma_decode_store(c: Seq<u8>, s: Emit, k: u32, src: u8)
    requires
        agrees(c, s.code.len() as int, s.store_slot(k, src).code),
        src < 16,
        k < MAX_SLOTS,
    ensures
        decode(c, s.code.len() as int) == (
            Op::Mov { to: place_of(Loc::Slot(k)), from: Place::Reg(src as int) },
            s.store_slot(k, src).code.len() as int,
        ),
{
    let at = s.code.len() as int;
    let b = seq![rex(true, src >= 8, false), 0x89];
    let head = s.raw(b);
    lemma_slot_front(c, at, head, src, k);
    lemma_front(c, at, s, b);
    assert(c[at + 0] == b[0] && c[at + 1] == b[1]);
    lemma_rex(c, at, true, src >= 8, false);
    lemma_slot_operand(c, prefixes(c, at), head, src, k);
    reveal(decode);
}

pub proof fn run_get(u: Fpu, c: Seq<u8>, s: Emit, into: u8, l: Loc, m: Cpu) -> (x: Cpu)
    requires
        agrees(c, s.code.len() as int, s.get(into, l).code),
        m.ip == s.code.len(),
        into < 16,
        in_frame(m, l),
    ensures
        reaches(u, c, m, x),
        x.ip == s.get(into, l).code.len(),
        set_reg(m, x, into as int, value(m, l)),
{
    match l {
        Loc::Reg(r) => run_mov_rr(u, c, s, into, r.number(), m),
        Loc::Slot(k) => run_load_slot(u, c, s, into, k, m),
    }
}

pub proof fn run_put(u: Fpu, c: Seq<u8>, s: Emit, from: u8, l: Loc, m: Cpu) -> (x: Cpu)
    requires
        agrees(c, s.code.len() as int, s.put(from, l).code),
        m.ip == s.code.len(),
        from < 16,
        in_frame(m, l),
    ensures
        reaches(u, c, m, x),
        x.ip == s.put(from, l).code.len(),
        set_home(m, x, l, m.regs[from as int]),
{
    match l {
        Loc::Reg(r) => run_mov_rr(u, c, s, r.number(), from, m),
        Loc::Slot(k) => run_store_slot(u, c, s, k, from, m),
    }
}

// ---- what stands in front of a fragment

pub broadcast proof fn lemma_get_front(c: Seq<u8>, from: int, s: Emit, into: u8, l: Loc)
    requires
        #[trigger] agrees(c, from, s.get(into, l).code),
    ensures
        agrees(c, from, s.code),
        s.code.len() <= s.get(into, l).code.len(),
{
    match l {
        Loc::Reg(r) => {
            if into != r.number() {
                lemma_front(
                    c,
                    from,
                    s,
                    seq![
                        rex(true, r.number() >= 8, into >= 8),
                        0x89,
                        modrm(3, r.number(), into),
                    ],
                );
            }
        },
        Loc::Slot(k) => {
            let b = seq![rex(true, into >= 8, false), 0x8B];
            lemma_slot_front(c, from, s.raw(b), into, k);
            lemma_front(c, from, s, b);
        },
    }
}

pub broadcast proof fn lemma_put_front(c: Seq<u8>, from: int, s: Emit, reg: u8, l: Loc)
    requires
        #[trigger] agrees(c, from, s.put(reg, l).code),
    ensures
        agrees(c, from, s.code),
        s.code.len() <= s.put(reg, l).code.len(),
{
    match l {
        Loc::Reg(r) => {
            if reg != r.number() {
                lemma_front(
                    c,
                    from,
                    s,
                    seq![rex(true, reg >= 8, r.number() >= 8), 0x89, modrm(3, reg, r.number())],
                );
            }
        },
        Loc::Slot(k) => {
            let b = seq![rex(true, reg >= 8, false), 0x89];
            lemma_slot_front(c, from, s.raw(b), reg, k);
            lemma_front(c, from, s, b);
        },
    }
}

} // verus!
