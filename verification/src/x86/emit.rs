//! The emission buffer: machine code with the sites that are still to be
//! resolved, and the fragments that every instruction is put together from.
//!
//! `Emit` is what has been emitted so far. Its methods append one fragment
//! each, so that a chain of them reads as an assembly listing.
use crate::bytes::{
    bits_i32, distance32, le32, le64, push_bytes, push_u32, push_u64, put_at, wrap32, write_at,
};
use crate::target::{Reloc, RelocKind, Section, Sym};
use crate::x86::regalloc::Loc;
use vstd::prelude::*;

verus! {

pub const RAX: u8 = 0;

pub const RCX: u8 = 1;

pub const RDX: u8 = 2;

pub const RSI: u8 = 6;

/// First integer argument, and the status that `exit_group` takes.
pub const RDI: u8 = 7;

pub const R8: u8 = 8;

pub const R10: u8 = 10;

pub const R11: u8 = 11;

/// Argument registers of the calling convention: `rdi, rsi, rdx, rcx, r8,
/// r9`. What does not fit goes on the stack, right to left.
pub const ARG: [u8; 6] = [7, 6, 2, 1, 8, 9];

/// Number of spill slots that a 32-bit displacement from `rbp` can reach.
pub const MAX_SLOTS: u32 = 0x1000_0000;

/// What a `call rel32` goes to.
#[derive(Debug, Clone, Copy, PartialEq, Eq, Structural)]
pub enum CallTarget {
    Fn(u32),
    HelperItoa,
    HelperItoaErr,
    HelperScanInt,
    HelperRetain,
    HelperRelease,
    HelperAlloc,
    HelperExcEnter,
    HelperExcPop,
    HelperExcThrow,
    HelperExcRethrow,
    HelperExcLoad,
    HelperExcClear,
}

/// The runtime helpers that the emitted code calls.
#[derive(Debug, Clone, Copy, PartialEq, Eq, Structural)]
pub struct Uses {
    pub int: bool,
    pub int_err: bool,
    pub scan: bool,
    pub retain: bool,
    pub release: bool,
    pub alloc: bool,
}

/// What has been emitted.
#[verifier::ext_equal]
pub struct Emit {
    pub code: Seq<u8>,
    /// Sites that take the address of a symbol.
    pub relocs: Seq<Reloc>,
    /// Sites that take the distance to a call target.
    pub calls: Seq<(usize, CallTarget)>,
    pub uses: Uses,
}

/// REX prefix with its W, R and B bits; the X bit is clear.
pub open spec fn rex(w: bool, r: bool, b: bool) -> u8 {
    (0x40 + (if w {
        8int
    } else {
        0
    }) + (if r {
        4int
    } else {
        0
    }) + (if b {
        1int
    } else {
        0
    })) as u8
}

/// ModRM byte with the low three bits of two register numbers.
pub open spec fn modrm(mode: u8, reg: u8, rm: u8) -> u8 {
    (mode % 4 * 64 + reg % 8 * 8 + rm % 8) as u8
}

/// Whether `l` can be addressed.
pub open spec fn home_ok(l: Loc) -> bool {
    l matches Loc::Slot(k) ==> k < MAX_SLOTS
}

/// Whether a call of `t` finds its helper, given which are brought along.
pub open spec fn helper_ready(uses: Uses, exc: bool, t: CallTarget) -> bool {
    match t {
        CallTarget::Fn(_) => true,
        CallTarget::HelperItoa => uses.int,
        CallTarget::HelperItoaErr => uses.int_err,
        CallTarget::HelperScanInt => uses.scan,
        CallTarget::HelperRetain => uses.retain,
        CallTarget::HelperRelease => uses.release,
        CallTarget::HelperAlloc => uses.alloc,
        _ => exc,
    }
}

impl Emit {
    /// Nothing emitted.
    pub open spec fn start() -> Emit {
        Emit {
            code: Seq::empty(),
            relocs: Seq::empty(),
            calls: Seq::empty(),
            uses: Uses {
                int: false,
                int_err: false,
                scan: false,
                retain: false,
                release: false,
                alloc: false,
            },
        }
    }

    pub open spec fn raw(self, b: Seq<u8>) -> Emit {
        Emit { code: self.code + b, ..self }
    }

    pub open spec fn imm32(self, v: u32) -> Emit {
        self.raw(le32(v))
    }

    pub open spec fn imm64(self, v: u64) -> Emit {
        self.raw(le64(v))
    }

    /// `mov dst, src` between 64-bit registers; nothing where they are one.
    pub open spec fn mov_rr(self, dst: u8, src: u8) -> Emit {
        if dst == src {
            self
        } else {
            self.raw(seq![rex(true, src >= 8, dst >= 8), 0x89, modrm(3, src, dst)])
        }
    }

    /// The operand `[rbp - 8*(slot+1)]`, with an 8-bit displacement where it
    /// is no lower than -120.
    pub open spec fn slot_operand(self, reg: u8, slot: u32) -> Emit {
        if slot < 15 {
            self.raw(seq![modrm(1, reg, 5), (0x100 - 8 * (slot + 1)) as u8])
        } else {
            self.raw(seq![modrm(2, reg, 5)]).imm32(wrap32(-8 * (slot + 1)))
        }
    }

    /// `mov dst, [slot]`
    pub open spec fn load_slot(self, dst: u8, slot: u32) -> Emit {
        self.raw(seq![rex(true, dst >= 8, false), 0x8B]).slot_operand(dst, slot)
    }

    /// `mov [slot], src`
    pub open spec fn store_slot(self, slot: u32, src: u8) -> Emit {
        self.raw(seq![rex(true, src >= 8, false), 0x89]).slot_operand(src, slot)
    }

    /// Loads the value that lives in `l` into a register.
    pub open spec fn get(self, into: u8, l: Loc) -> Emit {
        match l {
            Loc::Reg(r) => self.mov_rr(into, r.number()),
            Loc::Slot(k) => self.load_slot(into, k),
        }
    }

    /// Stores a register into `l`.
    pub open spec fn put(self, from: u8, l: Loc) -> Emit {
        match l {
            Loc::Reg(r) => self.mov_rr(r.number(), from),
            Loc::Slot(k) => self.store_slot(k, from),
        }
    }

    /// `movabs reg, imm64` for one of the first eight registers, whose
    /// immediate takes the address of `sym`.
    pub open spec fn window(self, reg: u8, sym: Sym) -> Emit {
        let head = self.raw(seq![0x48, (0xB8 + reg) as u8]);
        let site = head.code.len() as usize;
        Emit {
            relocs: self.relocs.push(
                Reloc { kind: RelocKind::Abs64, section: Section::Code, site, sym },
            ),
            ..head.imm64(0)
        }
    }

    /// `call rel32`
    pub open spec fn call(self, t: CallTarget) -> Emit {
        let head = self.raw(seq![0xE8]);
        let site = head.code.len() as usize;
        Emit { calls: self.calls.push((site, t)), ..head.imm32(0) }
    }

    /// The same code, with the helpers `uses` brought along.
    pub open spec fn with(self, uses: Uses) -> Emit {
        Emit { uses, ..self }
    }

    /// Whether every open site lies within the code, and everything that is
    /// called or addressed is brought along.
    pub open spec fn ok(self, exc: bool, argv: bool) -> bool {
        &&& forall|k: int|
            0 <= k < self.relocs.len() ==> site_ok(
                self.code.len() as int,
                argv,
                #[trigger] self.relocs[k],
            )
        &&& forall|k: int|
            0 <= k < self.calls.len() ==> (#[trigger] self.calls[k]).0 + 4 <= self.code.len()
                && helper_ready(self.uses, exc, self.calls[k].1)
    }
}

/// Whether code takes the address of `sym`: a place in the data, an import,
/// or the slot for the stack pointer of process start, where there is one.
pub open spec fn addressable(argv: bool, sym: Sym) -> bool {
    match sym {
        Sym::String(_) => true,
        Sym::VtableOff(_) => true,
        Sym::Static(_) => true,
        Sym::Import(_) => true,
        Sym::ArgvRsp => argv,
        _ => false,
    }
}

/// Whether `r` is an address site within `n` bytes of code.
pub open spec fn site_ok(n: int, argv: bool, r: Reloc) -> bool {
    r.kind == RelocKind::Abs64 && r.section == Section::Code && r.site + 8 <= n && addressable(
        argv,
        r.sym,
    )
}

pub fn rex_byte(w: bool, r: bool, b: bool) -> (x: u8)
    ensures
        x == rex(w, r, b),
{
    let mut x: u8 = 0x40;
    if w {
        x += 8;
    }
    if r {
        x += 4;
    }
    if b {
        x += 1;
    }
    x
}

pub fn modrm_byte(mode: u8, reg: u8, rm: u8) -> (x: u8)
    ensures
        x == modrm(mode, reg, rm),
{
    mode % 4 * 64 + reg % 8 * 8 + rm % 8
}

/// The emission buffer.
pub struct Emitter {
    pub code: Vec<u8>,
    pub relocs: Vec<Reloc>,
    pub call_sites: Vec<(usize, CallTarget)>,
    pub uses: Uses,
    /// Whether the exception helpers are brought along.
    pub exc: bool,
    /// Whether the slot for the stack pointer of process start is.
    pub argv: bool,
}

impl View for Emitter {
    type V = Emit;

    open spec fn view(&self) -> Emit {
        Emit {
            code: self.code@,
            relocs: self.relocs@,
            calls: self.call_sites@,
            uses: self.uses,
        }
    }
}

/// Whether `e` came from `before` by emission that is described as `want`.
pub open spec fn emitted(before: Emitter, e: Emitter, want: Emit) -> bool {
    &&& e@ == want
    &&& e.ok()
    &&& e.exc == before.exc
    &&& e.argv == before.argv
    &&& extends(before.code@, e.code@)
}

/// Whether `b` is `a` with something behind it.
pub open spec fn extends(a: Seq<u8>, b: Seq<u8>) -> bool {
    a.len() <= b.len() && forall|i: int| 0 <= i < a.len() ==> #[trigger] b[i] == a[i]
}

impl Emitter {
    /// What holds of the buffer between fragments.
    pub closed spec fn ok(self) -> bool {
        self@.ok(self.exc, self.argv)
    }

    pub proof fn lemma_ok(self)
        ensures
            self.ok() == self@.ok(self.exc, self.argv),
    {
    }

    /// An empty buffer.
    pub fn new(exc: bool, argv: bool) -> (e: Emitter)
        ensures
            e@ == Emit::start(),
            e.exc == exc,
            e.argv == argv,
            e.ok(),
    {
        let e = Emitter {
            code: Vec::new(),
            relocs: Vec::new(),
            call_sites: Vec::new(),
            uses: Uses {
                int: false,
                int_err: false,
                scan: false,
                retain: false,
                release: false,
                alloc: false,
            },
            exc,
            argv,
        };
        assert(e@ =~= Emit::start());
        e
    }

    pub fn bytes(&mut self, b: &[u8])
        requires
            old(self).ok(),
        ensures
            emitted(*old(self), *final(self), old(self)@.raw(b@)),
    {
        push_bytes(&mut self.code, b);
    }

    pub fn raw1(&mut self, a: u8)
        requires
            old(self).ok(),
        ensures
            emitted(*old(self), *final(self), old(self)@.raw(seq![a])),
    {
        self.code.push(a);
        assert(self.code@ =~= old(self).code@ + seq![a]);
    }

    pub fn raw2(&mut self, a: u8, b: u8)
        requires
            old(self).ok(),
        ensures
            emitted(*old(self), *final(self), old(self)@.raw(seq![a, b])),
    {
        self.code.push(a);
        self.code.push(b);
        assert(self.code@ =~= old(self).code@ + seq![a, b]);
    }

    pub fn raw3(&mut self, a: u8, b: u8, c: u8)
        requires
            old(self).ok(),
        ensures
            emitted(*old(self), *final(self), old(self)@.raw(seq![a, b, c])),
    {
        self.code.push(a);
        self.code.push(b);
        self.code.push(c);
        assert(self.code@ =~= old(self).code@ + seq![a, b, c]);
    }

    pub fn raw4(&mut self, a: u8, b: u8, c: u8, d: u8)
        requires
            old(self).ok(),
        ensures
            emitted(*old(self), *final(self), old(self)@.raw(seq![a, b, c, d])),
    {
        self.code.push(a);
        self.code.push(b);
        self.code.push(c);
        self.code.push(d);
        assert(self.code@ =~= old(self).code@ + seq![a, b, c, d]);
    }

    pub fn raw5(&mut self, a: u8, b: u8, c: u8, d: u8, e: u8)
        requires
            old(self).ok(),
        ensures
            emitted(*old(self), *final(self), old(self)@.raw(seq![a, b, c, d, e])),
    {
        self.code.push(a);
        self.code.push(b);
        self.code.push(c);
        self.code.push(d);
        self.code.push(e);
        assert(self.code@ =~= old(self).code@ + seq![a, b, c, d, e]);
    }

    pub fn imm32(&mut self, v: u32)
        requires
            old(self).ok(),
        ensures
            emitted(*old(self), *final(self), old(self)@.imm32(v)),
    {
        push_u32(&mut self.code, v);
    }

    pub fn imm64(&mut self, v: u64)
        requires
            old(self).ok(),
        ensures
            emitted(*old(self), *final(self), old(self)@.imm64(v)),
    {
        push_u64(&mut self.code, v);
    }

    pub fn mov_rr(&mut self, dst: u8, src: u8)
        requires
            old(self).ok(),
        ensures
            emitted(*old(self), *final(self), old(self)@.mov_rr(dst, src)),
    {
        if dst != src {
            self.raw3(rex_byte(true, src >= 8, dst >= 8), 0x89, modrm_byte(3, src, dst));
        }
    }

    pub fn slot_operand(&mut self, reg: u8, slot: u32)
        requires
            old(self).ok(),
            slot < MAX_SLOTS,
        ensures
            emitted(*old(self), *final(self), old(self)@.slot_operand(reg, slot)),
    {
        if slot < 15 {
            self.raw2(modrm_byte(1, reg, 5), (0x100 - 8 * (slot + 1)) as u8);
        } else {
            self.raw1(modrm_byte(2, reg, 5));
            let d: i64 = -8 * (slot as i64 + 1);
            self.imm32(bits_i32(d as i32));
        }
    }

    pub fn load_slot(&mut self, dst: u8, slot: u32)
        requires
            old(self).ok(),
            slot < MAX_SLOTS,
        ensures
            emitted(*old(self), *final(self), old(self)@.load_slot(dst, slot)),
    {
        self.raw2(rex_byte(true, dst >= 8, false), 0x8B);
        self.slot_operand(dst, slot);
    }

    pub fn store_slot(&mut self, slot: u32, src: u8)
        requires
            old(self).ok(),
            slot < MAX_SLOTS,
        ensures
            emitted(*old(self), *final(self), old(self)@.store_slot(slot, src)),
    {
        self.raw2(rex_byte(true, src >= 8, false), 0x89);
        self.slot_operand(src, slot);
    }

    pub fn get(&mut self, into: u8, l: Loc)
        requires
            old(self).ok(),
            home_ok(l),
        ensures
            emitted(*old(self), *final(self), old(self)@.get(into, l)),
    {
        match l {
            Loc::Reg(r) => self.mov_rr(into, r.id()),
            Loc::Slot(k) => self.load_slot(into, k),
        }
    }

    pub fn put(&mut self, from: u8, l: Loc)
        requires
            old(self).ok(),
            home_ok(l),
        ensures
            emitted(*old(self), *final(self), old(self)@.put(from, l)),
    {
        match l {
            Loc::Reg(r) => self.mov_rr(r.id(), from),
            Loc::Slot(k) => self.store_slot(k, from),
        }
    }

    pub fn abs64_window(&mut self, reg: u8, sym: Sym)
        requires
            old(self).ok(),
            reg < 8,
            addressable(old(self).argv, sym),
        ensures
            emitted(*old(self), *final(self), old(self)@.window(reg, sym)),
    {
        self.raw2(0x48, 0xB8 + reg);
        let site: usize = self.code.len();
        self.imm64(0);
        self.relocs.push(Reloc { kind: RelocKind::Abs64, section: Section::Code, site, sym });
        assert(self@ =~= old(self)@.window(reg, sym));
    }

    pub fn call_rel32(&mut self, t: CallTarget)
        requires
            old(self).ok(),
            helper_ready(old(self).uses, old(self).exc, t),
        ensures
            emitted(*old(self), *final(self), old(self)@.call(t)),
    {
        self.raw1(0xE8);
        let site: usize = self.code.len();
        self.imm32(0);
        self.call_sites.push((site, t));
        assert(self@ =~= old(self)@.call(t));
    }

    /// Brings `uses` along as well.
    pub fn need(&mut self, uses: Uses)
        requires
            old(self).ok(),
            forall|t: CallTarget|
                helper_ready(old(self).uses, old(self).exc, t) ==> #[trigger] helper_ready(
                    uses,
                    old(self).exc,
                    t,
                ),
        ensures
            emitted(*old(self), *final(self), old(self)@.with(uses)),
    {
        self.uses = uses;
    }
}

impl Emitter {
    /// Fills in the rel32 at `site` with the distance to `start`.
    pub fn patch(&mut self, site: usize, start: usize)
        requires
            old(self).ok(),
            site + 4 <= old(self).code.len(),
        ensures
            final(self)@ == (Emit {
                code: put_at(
                    old(self).code@,
                    site as int,
                    le32(wrap32(start - (site + 4))),
                ),
                ..old(self)@
            }),
            final(self).ok(),
            final(self).exc == old(self).exc,
            final(self).argv == old(self).argv,
    {
        let mut rel: Vec<u8> = Vec::new();
        push_u32(&mut rel, distance32(start, site + 4));
        assert(rel@ =~= le32(wrap32(start - (site + 4))));
        write_at(&mut self.code, site, rel.as_slice());
    }
}

} // verus!
