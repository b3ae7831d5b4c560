//! The part of the processor that emitted code relies on: how its bytes are
//! read as instructions, and what each of these does.
use crate::bytes::{le32, le64, u32_at, u64_at};
use vstd::prelude::*;

verus! {

/// How two doubles compare.
pub enum FOrder {
    Less,
    Equal,
    Greater,
    Unordered,
}

/// Double-precision arithmetic on bit patterns.
pub struct Fpu {
    pub plus: spec_fn(u64, u64) -> u64,
    pub minus: spec_fn(u64, u64) -> u64,
    pub times: spec_fn(u64, u64) -> u64,
    pub over: spec_fn(u64, u64) -> u64,
    pub order: spec_fn(u64, u64) -> FOrder,
}

/// Zero, sign, overflow, carry and parity.
pub struct Flags {
    pub zf: bool,
    pub sf: bool,
    pub of: bool,
    pub cf: bool,
    pub pf: bool,
}

/// The state of the processor: the sixteen general registers by number, the
/// low halves of the vector registers, memory by address, the flags, and the
/// place in the code.
pub struct Cpu {
    pub regs: Map<int, u64>,
    pub xmm: Map<int, u64>,
    pub mem: Map<int, u8>,
    pub flags: Flags,
    pub ip: int,
}

// ---- numbers

/// `v` modulo `2^64`.
pub open spec fn wrap64(v: int) -> u64 {
    (v % 0x1_0000_0000_0000_0000) as u64
}

/// A 64-bit pattern as a signed number.
pub open spec fn signed64(x: u64) -> int {
    if x < 0x8000_0000_0000_0000 {
        x as int
    } else {
        x - 0x1_0000_0000_0000_0000
    }
}

/// A 32-bit pattern as a signed number.
pub open spec fn signed32(x: u32) -> int {
    if x < 0x8000_0000 {
        x as int
    } else {
        x - 0x1_0000_0000
    }
}

/// A byte as a signed number.
pub open spec fn signed8(x: u8) -> int {
    if x < 0x80 {
        x as int
    } else {
        x - 0x100
    }
}

/// `n` divided by `d`, rounded towards zero.
pub open spec fn quotient(n: int, d: int) -> int {
    if n >= 0 {
        n / d
    } else {
        -((-n) / d)
    }
}

/// What `quotient` leaves over; it has the sign of `n`.
pub open spec fn remainder(n: int, d: int) -> int {
    n - quotient(n, d) * d
}

// ---- memory

/// The eight bytes at `a`.
#[verifier::opaque]
pub open spec fn read64(mem: Map<int, u8>, a: int) -> u64 {
    u64_at(
        seq![
            mem[a],
            mem[a + 1],
            mem[a + 2],
            mem[a + 3],
            mem[a + 4],
            mem[a + 5],
            mem[a + 6],
            mem[a + 7],
        ],
        0,
    )
}

/// Memory with the eight bytes of `v` at `a`.
#[verifier::opaque]
pub open spec fn write64(mem: Map<int, u8>, a: int, v: u64) -> Map<int, u8> {
    let b = le64(v);
    mem.insert(a, b[0]).insert(a + 1, b[1]).insert(a + 2, b[2]).insert(a + 3, b[3]).insert(
        a + 4,
        b[4],
    ).insert(a + 5, b[5]).insert(a + 6, b[6]).insert(a + 7, b[7])
}

// ---- reading instructions

/// What precedes an opcode: the operand-size prefix, and the bits of a REX
/// prefix, the last three of which extend register numbers by 8.
pub struct Pre {
    pub double: bool,
    pub any: bool,
    pub wide: bool,
    pub r: int,
    pub x: int,
    pub b: int,
    /// Where the opcode is.
    pub at: int,
}

pub open spec fn prefixes(c: Seq<u8>, at: int) -> Pre {
    let double = c[at] == 0x66;
    let q = if double {
        at + 1
    } else {
        at
    };
    let o = c[q] as int;
    if 0x40 <= o < 0x50 {
        Pre {
            double,
            any: true,
            wide: o / 8 % 2 == 1,
            r: 8 * (o / 4 % 2),
            x: 8 * (o / 2 % 2),
            b: 8 * (o % 2),
            at: q + 1,
        }
    } else {
        Pre { double, any: false, wide: false, r: 0, x: 0, b: 0, at: q }
    }
}

/// An operand: a register, a place in memory, or a constant. A register
/// number of -1 stands for none.
pub enum Place {
    Reg(int),
    Mem { base: int, index: int, scale: int, disp: int },
    /// Relative to the end of the instruction.
    Near(int),
    Imm(u64),
}

/// The displacement at `at` of a place with the given mode.
pub open spec fn displacement(c: Seq<u8>, at: int, mode: int) -> (int, int) {
    if mode == 1 {
        (signed8(c[at]), at + 1)
    } else if mode == 2 {
        (signed32(u32_at(c, at)), at + 4)
    } else {
        (0, at)
    }
}

/// The operand that the ModRM byte at `at` and what follows it stand for, and
/// where it ends.
pub open spec fn operand(c: Seq<u8>, p: Pre, at: int) -> (Place, int) {
    let mode = c[at] as int / 64;
    let low = c[at] as int % 8;
    if mode == 3 {
        (Place::Reg(low + p.b), at + 1)
    } else if low == 4 {
        let sib = c[at + 1] as int;
        let index = if sib / 8 % 8 + p.x == 4 {
            -1
        } else {
            sib / 8 % 8 + p.x
        };
        let scale = if sib / 64 == 0 {
            1int
        } else if sib / 64 == 1 {
            2
        } else if sib / 64 == 2 {
            4
        } else {
            8
        };
        if mode == 0 && sib % 8 == 5 {
            let (disp, next) = displacement(c, at + 2, 2);
            (Place::Mem { base: -1, index, scale, disp }, next)
        } else {
            let (disp, next) = displacement(c, at + 2, mode);
            (Place::Mem { base: sib % 8 + p.b, index, scale, disp }, next)
        }
    } else if mode == 0 && low == 5 {
        (Place::Near(signed32(u32_at(c, at + 1))), at + 5)
    } else {
        let (disp, next) = displacement(c, at + 1, mode);
        (Place::Mem { base: low + p.b, index: -1, scale: 1, disp }, next)
    }
}

/// The register field of the ModRM byte at `at`.
pub open spec fn field(c: Seq<u8>, at: int) -> int {
    c[at] as int / 8 % 8
}

/// Two-operand arithmetic.
pub enum Alu {
    Plus,
    Minus,
    Times,
    Both,
    Either,
    Differ,
}

pub enum Op {
    Mov { to: Place, from: Place },
    Lea { to: int, from: Place },
    /// A byte, zero-extended.
    Widen { to: int, from: Place },
    LoadByte { to: int, from: Place },
    StoreByte { to: Place, from: int },
    /// Four bytes of a constant.
    StoreWord { to: Place, v: u32 },
    /// The flags of a byte less the low byte of a register.
    CompareByte { a: Place, b: int },
    /// The flags of the bits that a byte has in common with the low byte of a
    /// register.
    TestByte { a: Place, b: int },
    /// The result is kept, or only the flags that it sets.
    Arith { f: Alu, wide: bool, keep: bool, to: Place, from: Place },
    /// The same on low bytes of registers.
    ArithByte { f: Alu, to: int, from: int },
    Neg { to: Place },
    Step { to: Place, up: bool },
    /// `rdx:rax` by the operand.
    Divide { by: Place },
    /// The sign of `rax` into `rdx`.
    SignOut,
    /// By the count in `cl`: left, right with the sign, right without it.
    ShiftLeft { to: Place },
    ShiftSigned { to: Place },
    ShiftPlain { to: Place },
    SetIf { cc: int, to: int },
    ToVector { to: int, from: int },
    FromVector { to: int, from: int },
    Double { f: FArith, to: int, from: int },
    Order { a: int, b: int },
    Push(int),
    Pop(int),
    Leave,
    Ret,
    Jump(int),
    JumpIf { cc: int, d: int },
    Call(int),
    CallThrough(Place),
    Syscall,
    Nothing,
    Unknown,
}

pub enum FArith {
    Plus,
    Minus,
    Times,
    Over,
}

/// A sign-extended 32-bit constant.
pub open spec fn imm32_at(c: Seq<u8>, at: int) -> u64 {
    wrap64(signed32(u32_at(c, at)))
}

/// An opcode of one byte that has a ModRM byte behind it.
pub open spec fn with_operand(c: Seq<u8>, p: Pre) -> (Op, int) {
    let o = c[p.at];
    let (place, next) = operand(c, p, p.at + 1);
    let g = field(c, p.at + 1);
    let reg = Place::Reg(g + p.r);
    if o == 0x89 && p.wide {
        (Op::Mov { to: place, from: reg }, next)
    } else if o == 0x8B && p.wide {
        (Op::Mov { to: reg, from: place }, next)
    } else if o == 0x8D && p.wide {
        (Op::Lea { to: g + p.r, from: place }, next)
    } else if o == 0x88 && (p.any || g < 4) {
        (Op::StoreByte { to: place, from: g + p.r }, next)
    } else if o == 0x8A && (p.any || g < 4) {
        (Op::LoadByte { to: g + p.r, from: place }, next)
    } else if o == 0x03 && p.wide {
        (Op::Arith { f: Alu::Plus, wide: true, keep: true, to: reg, from: place }, next)
    } else if o == 0x2B && p.wide {
        (Op::Arith { f: Alu::Minus, wide: true, keep: true, to: reg, from: place }, next)
    } else if o == 0x23 && p.wide {
        (Op::Arith { f: Alu::Both, wide: true, keep: true, to: reg, from: place }, next)
    } else if o == 0x0B && p.wide {
        (Op::Arith { f: Alu::Either, wide: true, keep: true, to: reg, from: place }, next)
    } else if o == 0x33 && p.wide {
        (Op::Arith { f: Alu::Differ, wide: true, keep: true, to: reg, from: place }, next)
    } else if o == 0x3B && p.wide {
        (Op::Arith { f: Alu::Minus, wide: true, keep: false, to: reg, from: place }, next)
    } else if o == 0x39 && p.wide {
        (Op::Arith { f: Alu::Minus, wide: true, keep: false, to: place, from: reg }, next)
    } else if o == 0x31 {
        (Op::Arith { f: Alu::Differ, wide: p.wide, keep: true, to: place, from: reg }, next)
    } else if o == 0x85 && p.wide {
        (Op::Arith { f: Alu::Both, wide: true, keep: false, to: place, from: reg }, next)
    } else if o == 0x20 && place is Reg && !p.any && g < 4 && place->Reg_0 < 4 {
        (Op::ArithByte { f: Alu::Both, to: place->Reg_0, from: g }, next)
    } else if o == 0x08 && place is Reg && !p.any && g < 4 && place->Reg_0 < 4 {
        (Op::ArithByte { f: Alu::Either, to: place->Reg_0, from: g }, next)
    } else if o == 0x83 && p.wide && (g == 0 || g == 4 || g == 5) {
        let v = Place::Imm(wrap64(signed8(c[next])));
        let f = if g == 0 {
            Alu::Plus
        } else if g == 4 {
            Alu::Both
        } else {
            Alu::Minus
        };
        (Op::Arith { f, wide: true, keep: true, to: place, from: v }, next + 1)
    } else if o == 0x81 && p.wide && (g == 0 || g == 5) {
        let v = Place::Imm(imm32_at(c, next));
        let f = if g == 0 {
            Alu::Plus
        } else {
            Alu::Minus
        };
        (Op::Arith { f, wide: true, keep: true, to: place, from: v }, next + 4)
    } else if o == 0xC7 && p.wide && g == 0 {
        (Op::Mov { to: place, from: Place::Imm(imm32_at(c, next)) }, next + 4)
    } else if o == 0xC7 && !p.wide && !p.double && g == 0 {
        (Op::StoreWord { to: place, v: u32_at(c, next) }, next + 4)
    } else if o == 0x38 && (p.any || g < 4) {
        (Op::CompareByte { a: place, b: g + p.r }, next)
    } else if o == 0x84 && (p.any || g < 4) && (place matches Place::Reg(q) ==> p.any || q < 4) {
        (Op::TestByte { a: place, b: g + p.r }, next)
    } else if o == 0xF7 && p.wide && g == 3 {
        (Op::Neg { to: place }, next)
    } else if o == 0xF7 && p.wide && g == 7 {
        (Op::Divide { by: place }, next)
    } else if o == 0xD3 && p.wide && g == 4 {
        (Op::ShiftLeft { to: place }, next)
    } else if o == 0xD3 && p.wide && g == 5 {
        (Op::ShiftPlain { to: place }, next)
    } else if o == 0xD3 && p.wide && g == 7 {
        (Op::ShiftSigned { to: place }, next)
    } else if o == 0xFF && p.wide && g == 0 {
        (Op::Step { to: place, up: true }, next)
    } else if o == 0xFF && p.wide && g == 1 {
        (Op::Step { to: place, up: false }, next)
    } else if o == 0xFF && g == 2 {
        (Op::CallThrough(place), next)
    } else {
        (Op::Unknown, next)
    }
}

/// An opcode behind `0F`.
pub open spec fn behind_0f(c: Seq<u8>, p: Pre) -> (Op, int) {
    let at = p.at + 1;
    let o = c[at];
    let (place, next) = operand(c, p, at + 1);
    let g = field(c, at + 1) + p.r;
    if o == 0x05 {
        (Op::Syscall, at + 1)
    } else if 0x80 <= o < 0x90 {
        (Op::JumpIf { cc: o - 0x80, d: signed32(u32_at(c, at + 1)) }, at + 5)
    } else if 0x90 <= o < 0xA0 && place is Reg && !p.any && place->Reg_0 < 4 {
        (Op::SetIf { cc: o - 0x90, to: place->Reg_0 }, next)
    } else if o == 0xAF && p.wide {
        (Op::Arith { f: Alu::Times, wide: true, keep: true, to: Place::Reg(g), from: place }, next)
    } else if o == 0xB6 && p.wide {
        (Op::Widen { to: g, from: place }, next)
    } else if o == 0x6E && p.double && p.wide && place is Reg {
        (Op::ToVector { to: g, from: place->Reg_0 }, next)
    } else if o == 0x7E && p.double && p.wide && place is Reg {
        (Op::FromVector { to: place->Reg_0, from: g }, next)
    } else if o == 0x58 && p.double && place is Reg {
        (Op::Double { f: FArith::Plus, to: g, from: place->Reg_0 }, next)
    } else if o == 0x5C && p.double && place is Reg {
        (Op::Double { f: FArith::Minus, to: g, from: place->Reg_0 }, next)
    } else if o == 0x59 && p.double && place is Reg {
        (Op::Double { f: FArith::Times, to: g, from: place->Reg_0 }, next)
    } else if o == 0x5E && p.double && place is Reg {
        (Op::Double { f: FArith::Over, to: g, from: place->Reg_0 }, next)
    } else if o == 0x2F && p.double && place is Reg {
        (Op::Order { a: g, b: place->Reg_0 }, next)
    } else {
        (Op::Unknown, next)
    }
}

/// The instruction at `at`, and where it ends.
#[verifier::opaque]
pub open spec fn decode(c: Seq<u8>, at: int) -> (Op, int) {
    let p = prefixes(c, at);
    let o = c[p.at];
    let next = p.at + 1;
    if o == 0x0F {
        behind_0f(c, p)
    } else if 0x50 <= o < 0x58 {
        (Op::Push(o - 0x50 + p.b), next)
    } else if 0x58 <= o < 0x60 {
        (Op::Pop(o - 0x58 + p.b), next)
    } else if 0x70 <= o < 0x80 {
        (Op::JumpIf { cc: o - 0x70, d: signed8(c[next]) }, next + 1)
    } else if 0xB8 <= o < 0xC0 {
        if p.wide {
            (
                Op::Mov { to: Place::Reg(o - 0xB8 + p.b), from: Place::Imm(u64_at(c, next)) },
                next + 8,
            )
        } else {
            (
                Op::Mov { to: Place::Reg(o - 0xB8 + p.b), from: Place::Imm(u32_at(c, next) as u64) },
                next + 4,
            )
        }
    } else if o == 0x90 {
        (Op::Nothing, next)
    } else if o == 0x99 && p.wide {
        (Op::SignOut, next)
    } else if o == 0xC3 {
        (Op::Ret, next)
    } else if o == 0xC9 {
        (Op::Leave, next)
    } else if o == 0xE8 {
        (Op::Call(signed32(u32_at(c, next))), next + 4)
    } else if o == 0xE9 {
        (Op::Jump(signed32(u32_at(c, next))), next + 4)
    } else if o == 0xEB {
        (Op::Jump(signed8(c[next])), next + 1)
    } else {
        with_operand(c, p)
    }
}

// ---- running instructions

/// The address of a place in memory; `next` is the end of the instruction.
pub open spec fn address_of(m: Cpu, p: Place, next: int) -> int {
    match p {
        Place::Mem { base, index, scale, disp } => wrap64(
            (if base >= 0 {
                m.regs[base] as int
            } else {
                0
            }) + (if index >= 0 {
                m.regs[index] * scale
            } else {
                0
            }) + disp,
        ) as int,
        Place::Near(d) => wrap64(next + d) as int,
        _ => 0,
    }
}

pub open spec fn fetch(m: Cpu, p: Place, next: int) -> u64 {
    match p {
        Place::Reg(r) => m.regs[r],
        Place::Imm(v) => v,
        _ => read64(m.mem, address_of(m, p, next)),
    }
}

pub open spec fn fetch_byte(m: Cpu, p: Place, next: int) -> u8 {
    match p {
        Place::Reg(r) => (m.regs[r] % 0x100) as u8,
        Place::Imm(v) => (v % 0x100) as u8,
        _ => m.mem[address_of(m, p, next)],
    }
}

/// The processor with `v` at `p`, behind the instruction.
pub open spec fn deliver(m: Cpu, p: Place, v: u64, next: int) -> Cpu {
    match p {
        Place::Reg(r) => Cpu { regs: m.regs.insert(r, v), ip: next, ..m },
        Place::Imm(_) => Cpu { ip: next, ..m },
        _ => Cpu { mem: write64(m.mem, address_of(m, p, next), v), ip: next, ..m },
    }
}

pub open spec fn alu_value(f: Alu, a: u64, b: u64) -> u64 {
    match f {
        Alu::Plus => wrap64(a + b),
        Alu::Minus => wrap64(a - b),
        Alu::Times => wrap64(a * b),
        Alu::Both => a & b,
        Alu::Either => a | b,
        Alu::Differ => a ^ b,
    }
}

/// The flags that a subtraction sets; of the others, zero and sign are all
/// that code looks at.
pub open spec fn alu_flags(f: Alu, a: u64, b: u64) -> Flags {
    let v = alu_value(f, a, b);
    let zf = v == 0;
    let sf = v >= 0x8000_0000_0000_0000;
    match f {
        Alu::Minus => Flags {
            zf,
            sf,
            of: signed64(v) != signed64(a) - signed64(b),
            cf: a < b,
            pf: false,
        },
        _ => Flags { zf, sf, of: false, cf: false, pf: false },
    }
}

/// The flags of `a` less `b`.
pub open spec fn byte_flags(a: u8, b: u8) -> Flags {
    let v = signed8(a) - signed8(b);
    Flags {
        zf: a == b,
        sf: (a - b) % 0x100 >= 0x80,
        of: v < -0x80 || v >= 0x80,
        cf: a < b,
        pf: false,
    }
}

/// Whether condition `cc` holds.
pub open spec fn holds_if(cc: int, f: Flags) -> bool {
    if cc == 2 {
        f.cf
    } else if cc == 3 {
        !f.cf
    } else if cc == 4 {
        f.zf
    } else if cc == 5 {
        !f.zf
    } else if cc == 6 {
        f.cf || f.zf
    } else if cc == 7 {
        !f.cf && !f.zf
    } else if cc == 0xA {
        f.pf
    } else if cc == 0xB {
        !f.pf
    } else if cc == 0xC {
        f.sf != f.of
    } else if cc == 0xD {
        f.sf == f.of
    } else if cc == 0xE {
        f.zf || f.sf != f.of
    } else if cc == 0xF {
        !f.zf && f.sf == f.of
    } else {
        false
    }
}

/// `x` with `b` as its low byte.
pub open spec fn with_low(x: u64, b: int) -> u64 {
    (x - x % 0x100 + b) as u64
}

pub open spec fn double_value(u: Fpu, f: FArith, a: u64, b: u64) -> u64 {
    match f {
        FArith::Plus => (u.plus)(a, b),
        FArith::Minus => (u.minus)(a, b),
        FArith::Times => (u.times)(a, b),
        FArith::Over => (u.over)(a, b),
    }
}

/// The flags that comparing two doubles sets.
pub open spec fn order_flags(o: FOrder) -> Flags {
    match o {
        FOrder::Greater => Flags { zf: false, sf: false, of: false, cf: false, pf: false },
        FOrder::Equal => Flags { zf: true, sf: false, of: false, cf: false, pf: false },
        FOrder::Less => Flags { zf: false, sf: false, of: false, cf: true, pf: false },
        FOrder::Unordered => Flags { zf: true, sf: false, of: false, cf: true, pf: true },
    }
}

/// `2^n`.
pub open spec fn power(n: int) -> int
    decreases n,
{
    if n <= 0 {
        1
    } else {
        2 * power(n - 1)
    }
}

/// Pushes `v`.
pub open spec fn pushed(m: Cpu, v: u64, next: int) -> Cpu {
    let sp = wrap64(m.regs[4] - 8);
    Cpu { regs: m.regs.insert(4, sp), mem: write64(m.mem, sp as int, v), ip: next, ..m }
}

/// The processor behind instruction `op`, which ends at `next`; none where it
/// faults, or leaves the code that is looked at: for a call, a system call,
/// or an instruction that this account does not have.
pub open spec fn exec(u: Fpu, op: Op, m: Cpu, next: int) -> Option<Cpu> {
    match op {
        Op::Mov { to, from } => Some(deliver(m, to, fetch(m, from, next), next)),
        Op::Lea { to, from } => Some(
            Cpu { regs: m.regs.insert(to, address_of(m, from, next) as u64), ip: next, ..m },
        ),
        Op::Widen { to, from } => Some(
            Cpu { regs: m.regs.insert(to, fetch_byte(m, from, next) as u64), ip: next, ..m },
        ),
        Op::LoadByte { to, from } => Some(
            Cpu {
                regs: m.regs.insert(
                    to,
                    with_low(m.regs[to], fetch_byte(m, from, next) as int),
                ),
                ip: next,
                ..m
            },
        ),
        Op::StoreByte { to, from } => Some(
            Cpu {
                mem: m.mem.insert(address_of(m, to, next), (m.regs[from] % 0x100) as u8),
                ip: next,
                ..m
            },
        ),
        Op::StoreWord { to, v } => match to {
            Place::Reg(r) => Some(Cpu { regs: m.regs.insert(r, v as u64), ip: next, ..m }),
            _ => {
                let a = address_of(m, to, next);
                let b = le32(v);
                Some(
                    Cpu {
                        mem: m.mem.insert(a, b[0]).insert(a + 1, b[1]).insert(a + 2, b[2]).insert(
                            a + 3,
                            b[3],
                        ),
                        ip: next,
                        ..m
                    },
                )
            },
        },
        Op::CompareByte { a, b } => Some(
            Cpu {
                flags: byte_flags(fetch_byte(m, a, next), (m.regs[b] % 0x100) as u8),
                ip: next,
                ..m
            },
        ),
        Op::TestByte { a, b } => {
            let v = fetch_byte(m, a, next) & (m.regs[b] % 0x100) as u8;
            Some(
                Cpu {
                    flags: Flags { zf: v == 0, sf: v >= 0x80, of: false, cf: false, pf: false },
                    ip: next,
                    ..m
                },
            )
        },
        Op::Arith { f, wide, keep, to, from } => {
            let a = fetch(m, to, next);
            let b = fetch(m, from, next);
            let v = alu_value(f, a, b);
            let done = Cpu { flags: alu_flags(f, a, b), ip: next, ..m };
            if !keep {
                Some(done)
            } else if wide {
                Some(deliver(done, to, v, next))
            } else {
                Some(deliver(done, to, (v % 0x1_0000_0000) as u64, next))
            }
        },
        Op::ArithByte { f, to, from } => {
            let a = (m.regs[to] % 0x100) as u64;
            let b = (m.regs[from] % 0x100) as u64;
            let v = alu_value(f, a, b);
            Some(
                Cpu {
                    regs: m.regs.insert(to, with_low(m.regs[to], v as int % 0x100)),
                    flags: alu_flags(f, a, b),
                    ip: next,
                    ..m
                },
            )
        },
        Op::Neg { to } => {
            let a = fetch(m, to, next);
            let done = Cpu { flags: alu_flags(Alu::Minus, 0, a), ip: next, ..m };
            Some(deliver(done, to, wrap64(-(a as int)), next))
        },
        Op::Step { to, up } => {
            let a = fetch(m, to, next);
            let f = if up {
                Alu::Plus
            } else {
                Alu::Minus
            };
            let done = Cpu {
                flags: Flags { cf: m.flags.cf, ..alu_flags(f, a, 1) },
                ip: next,
                ..m
            };
            Some(deliver(done, to, alu_value(f, a, 1), next))
        },
        Op::Divide { by } => {
            let n = signed64(m.regs[2]) * 0x1_0000_0000_0000_0000 + m.regs[0];
            let d = signed64(fetch(m, by, next));
            let q = quotient(n, d);
            if d == 0 || q < -0x8000_0000_0000_0000 || q >= 0x8000_0000_0000_0000 {
                None
            } else {
                Some(
                    Cpu {
                        regs: m.regs.insert(0, wrap64(q)).insert(2, wrap64(remainder(n, d))),
                        ip: next,
                        ..m
                    },
                )
            }
        },
        Op::SignOut => Some(
            Cpu {
                regs: m.regs.insert(
                    2,
                    if signed64(m.regs[0]) < 0 {
                        0xFFFF_FFFF_FFFF_FFFFu64
                    } else {
                        0u64
                    },
                ),
                ip: next,
                ..m
            },
        ),
        Op::ShiftLeft { to } => Some(
            deliver(m, to, wrap64(fetch(m, to, next) * power(m.regs[1] as int % 64)), next),
        ),
        Op::ShiftSigned { to } => Some(
            deliver(
                m,
                to,
                wrap64(signed64(fetch(m, to, next)) / power(m.regs[1] as int % 64)),
                next,
            ),
        ),
        Op::ShiftPlain { to } => Some(
            deliver(m, to, wrap64(fetch(m, to, next) as int / power(m.regs[1] as int % 64)), next),
        ),
        Op::SetIf { cc, to } => Some(
            Cpu {
                regs: m.regs.insert(
                    to,
                    with_low(
                        m.regs[to],
                        if holds_if(cc, m.flags) {
                            1
                        } else {
                            0
                        },
                    ),
                ),
                ip: next,
                ..m
            },
        ),
        Op::ToVector { to, from } => Some(
            Cpu { xmm: m.xmm.insert(to, m.regs[from]), ip: next, ..m },
        ),
        Op::FromVector { to, from } => Some(
            Cpu { regs: m.regs.insert(to, m.xmm[from]), ip: next, ..m },
        ),
        Op::Double { f, to, from } => Some(
            Cpu {
                xmm: m.xmm.insert(to, double_value(u, f, m.xmm[to], m.xmm[from])),
                ip: next,
                ..m
            },
        ),
        Op::Order { a, b } => Some(
            Cpu { flags: order_flags((u.order)(m.xmm[a], m.xmm[b])), ip: next, ..m },
        ),
        Op::Push(r) => Some(pushed(m, m.regs[r], next)),
        Op::Pop(r) => Some(
            Cpu {
                regs: m.regs.insert(4, wrap64(m.regs[4] + 8)).insert(
                    r,
                    read64(m.mem, m.regs[4] as int),
                ),
                ip: next,
                ..m
            },
        ),
        Op::Leave => Some(
            Cpu {
                regs: m.regs.insert(4, wrap64(m.regs[5] + 8)).insert(
                    5,
                    read64(m.mem, m.regs[5] as int),
                ),
                ip: next,
                ..m
            },
        ),
        Op::Ret => Some(
            Cpu {
                regs: m.regs.insert(4, wrap64(m.regs[4] + 8)),
                ip: read64(m.mem, m.regs[4] as int) as int,
                ..m
            },
        ),
        Op::Jump(d) => Some(Cpu { ip: next + d, ..m }),
        Op::JumpIf { cc, d } => Some(
            Cpu {
                ip: if holds_if(cc, m.flags) {
                    next + d
                } else {
                    next
                },
                ..m
            },
        ),
        Op::Nothing => Some(Cpu { ip: next, ..m }),
        Op::Call(_) => None,
        Op::CallThrough(_) => None,
        Op::Syscall => None,
        Op::Unknown => None,
    }
}

/// One instruction.
pub open spec fn step(u: Fpu, c: Seq<u8>, m: Cpu) -> Option<Cpu> {
    let (op, next) = decode(c, m.ip);
    exec(u, op, m, next)
}

/// `n` instructions.
pub open spec fn run(u: Fpu, c: Seq<u8>, m: Cpu, n: nat) -> Option<Cpu>
    decreases n,
{
    if n == 0 {
        Some(m)
    } else {
        match step(u, c, m) {
            Some(x) => run(u, c, x, (n - 1) as nat),
            None => None,
        }
    }
}

/// Whether running `c` brings the processor from `m` to `x`.
#[verifier::opaque]
pub open spec fn reaches(u: Fpu, c: Seq<u8>, m: Cpu, x: Cpu) -> bool {
    exists|n: nat| #[trigger] run(u, c, m, n) == Some(x)
}

pub proof fn lemma_here(u: Fpu, c: Seq<u8>, m: Cpu)
    ensures
        reaches(u, c, m, m),
{
    reveal(reaches);
    assert(run(u, c, m, 0) == Some(m));
}

pub proof fn lemma_step(u: Fpu, c: Seq<u8>, m: Cpu, x: Cpu)
    requires
        step(u, c, m) == Some(x),
    ensures
        reaches(u, c, m, x),
{
    reveal(reaches);
    assert(run(u, c, x, 0) == Some(x));
    assert(run(u, c, m, 1) == Some(x));
}

proof fn lemma_run(u: Fpu, c: Seq<u8>, m: Cpu, n: nat, x: Cpu, k: nat)
    requires
        run(u, c, m, n) == Some(x),
    ensures
        run(u, c, m, n + k) == run(u, c, x, k),
    decreases n,
{
    if n > 0 {
        let y = step(u, c, m)->0;
        lemma_run(u, c, y, (n - 1) as nat, x, k);
        assert((n + k - 1) as nat == (n - 1) as nat + k);
    }
}

/// Running on from where running has led.
pub proof fn lemma_onward(u: Fpu, c: Seq<u8>, m: Cpu, x: Cpu, y: Cpu)
    requires
        reaches(u, c, m, x),
        reaches(u, c, x, y),
    ensures
        reaches(u, c, m, y),
{
    reveal(reaches);
    let n = choose|n: nat| #[trigger] run(u, c, m, n) == Some(x);
    let k = choose|k: nat| #[trigger] run(u, c, x, k) == Some(y);
    lemma_run(u, c, m, n, x, k);
    assert(run(u, c, m, n + k) == Some(y));
}

pub proof fn lemma_read_written(mem: Map<int, u8>, a: int, v: u64)
    ensures
        read64(write64(mem, a, v), a) == v,
{
    reveal(read64);
    reveal(write64);
    let w = write64(mem, a, v);
    let b = le64(v);
    let s = seq![w[a], w[a + 1], w[a + 2], w[a + 3], w[a + 4], w[a + 5], w[a + 6], w[a + 7]];
    assert(b.len() == 8);
    assert(s.subrange(0, 8) =~= b);
    crate::bytes::lemma_u64_at(s, 0, v);
}

pub proof fn lemma_read_elsewhere(mem: Map<int, u8>, a: int, v: u64, at: int)
    requires
        at + 8 <= a || a + 8 <= at,
    ensures
        read64(write64(mem, a, v), at) == read64(mem, at),
{
    reveal(read64);
    reveal(write64);
    let w = write64(mem, a, v);
    assert(w[at] == mem[at] && w[at + 1] == mem[at + 1] && w[at + 2] == mem[at + 2] && w[at + 3]
        == mem[at + 3] && w[at + 4] == mem[at + 4] && w[at + 5] == mem[at + 5] && w[at + 6]
        == mem[at + 6] && w[at + 7] == mem[at + 7]);
}

pub proof fn lemma_byte_elsewhere(mem: Map<int, u8>, a: int, v: u64, at: int)
    requires
        at < a || a + 8 <= at,
    ensures
        write64(mem, a, v)[at] == mem[at],
{
    reveal(write64);
}

} // verus!
