//! The machine code of each instruction.
//!
//! The allocator has given every value a home in a callee-saved register or
//! a frame slot. Caller-saved registers serve argument passing, the system
//! call convention, division operands and scratch, so no call can clobber an
//! allocated value.
use crate::bytes::wrap32;
use crate::ir::{BinOp, CmpOp, FBinOp, FCmpOp, Instr, VReg};
use crate::target::Sym;
use crate::x86::emit::{
    emitted, extends, helper_ready, home_ok, modrm, modrm_byte, rex, rex_byte, CallTarget, Emit,
    Emitter, Uses, ARG, R10, R11, R8, RAX, RCX, RDI, RDX, RSI,
};
use crate::x86::regalloc::Loc;
use vstd::prelude::*;

verus! {

/// What emission knows of the program as a whole.
pub struct Context {
    /// Byte offset of each vtable row in the data blob.
    pub vtable_offsets: Vec<usize>,
    /// Number of static fields.
    pub statics: usize,
    /// Whether each function takes a receiver.
    pub takes_receiver: Vec<bool>,
    /// Whether the stack pointer of process start is kept.
    pub uses_argv: bool,
}

/// `Context` as a mathematical value.
#[verifier::ext_equal]
pub struct Cx {
    pub vtable_offsets: Seq<usize>,
    pub statics: int,
    pub takes_receiver: Seq<bool>,
    pub uses_argv: bool,
}

impl View for Context {
    type V = Cx;

    open spec fn view(&self) -> Cx {
        Cx {
            vtable_offsets: self.vtable_offsets@,
            statics: self.statics as int,
            takes_receiver: self.takes_receiver@,
            uses_argv: self.uses_argv,
        }
    }
}

/// The home of `v`.
pub open spec fn home(loc: Seq<Loc>, v: VReg) -> Loc {
    loc[v.0 as int]
}

/// Whether every home can be addressed.
pub open spec fn homes_ok(loc: Seq<Loc>) -> bool {
    forall|v: int| 0 <= v < loc.len() ==> home_ok(#[trigger] loc[v])
}

pub open spec fn args_in_range(args: Seq<VReg>, n: int) -> bool {
    forall|k: int| 0 <= k < args.len() ==> (#[trigger] args[k]).0 < n
}

/// Whether every virtual register that `i` names is below `n`.
pub open spec fn in_range(i: Instr, n: int) -> bool {
    match i {
        Instr::Const { dst, .. } => dst.0 < n,
        Instr::FConst { dst, .. } => dst.0 < n,
        Instr::Mov { dst, a } => dst.0 < n && a.0 < n,
        Instr::Raw(_) => true,
        Instr::Bin { dst, a, b, .. } => dst.0 < n && a.0 < n && b.0 < n,
        Instr::Cmp { dst, a, b, .. } => dst.0 < n && a.0 < n && b.0 < n,
        Instr::Neg { dst, a } => dst.0 < n && a.0 < n,
        Instr::FBin { dst, a, b, .. } => dst.0 < n && a.0 < n && b.0 < n,
        Instr::FCmp { dst, a, b, .. } => dst.0 < n && a.0 < n && b.0 < n,
        Instr::FNeg { dst, a } => dst.0 < n && a.0 < n,
        Instr::CallFn { dst, args, .. } => dst.0 < n && args_in_range(args@, n),
        Instr::CallStatic { dst, args, .. } => dst.0 < n && args_in_range(args@, n),
        Instr::CallVirt { dst, recv, args, .. } => dst.0 < n && recv.0 < n && args_in_range(
            args@,
            n,
        ),
        Instr::CallImport { dst, args, .. } => dst.0 < n && args_in_range(args@, n),
        Instr::CallByName { dst, recv, args, .. } => dst.0 < n && recv.0 < n && args_in_range(
            args@,
            n,
        ),
        Instr::LoadImport { dst, .. } => dst.0 < n,
        Instr::Alloc { dst, .. } => dst.0 < n,
        Instr::AllocDyn { dst, bytes } => dst.0 < n && bytes.0 < n,
        Instr::StackAlloc { dst, .. } => dst.0 < n,
        Instr::VTableAddr { dst, .. } => dst.0 < n,
        Instr::LoadStaticAddr { dst, .. } => dst.0 < n,
        Instr::LoadStrAddr { dst, .. } => dst.0 < n,
        Instr::LoadField { dst, base, .. } => dst.0 < n && base.0 < n,
        Instr::LoadByte { dst, base, .. } => dst.0 < n && base.0 < n,
        Instr::StoreField { base, src, .. } => base.0 < n && src.0 < n,
        Instr::BuildArgv { dst } => dst.0 < n,
        Instr::WriteStr { .. } => true,
        Instr::EWriteStr { .. } => true,
        Instr::WriteString { src } => src.0 < n,
        Instr::WriteInt { src } => src.0 < n,
        Instr::EWriteInt { src } => src.0 < n,
        Instr::ScanInt { dst } => dst.0 < n,
        Instr::MemCpy { dst, src, len } => dst.0 < n && src.0 < n && len.0 < n,
        Instr::MemCmp { dst, a, b, len } => dst.0 < n && a.0 < n && b.0 < n && len.0 < n,
        Instr::Retain { src } => src.0 < n,
        Instr::Release { src, .. } => src.0 < n,
        Instr::Drop { src } => src.0 < n,
        Instr::Exit => true,
        Instr::HandlerEnter { dst } => dst.0 < n,
        Instr::HandlerPop => true,
        Instr::LoadExc { dst } => dst.0 < n,
        Instr::ClearInflight => true,
        Instr::TaskAlloc { dst, .. } => dst.0 < n,
        Instr::Suspend { state } => state.0 < n,
        Instr::CoroutineResume { task, dst } => task.0 < n && dst.0 < n,
    }
}

/// Whether `i` calls on the exception runtime.
pub open spec fn uses_exc(i: Instr) -> bool {
    match i {
        Instr::HandlerEnter { .. } => true,
        Instr::HandlerPop => true,
        Instr::LoadExc { .. } => true,
        Instr::ClearInflight => true,
        _ => false,
    }
}

/// Whether this target has code for `i`: not for exits in the middle of a
/// block, calls by name, stack allocation, drops and type tests; a vtable
/// address needs a vtable, and a vtable slot a 32-bit offset.
pub open spec fn encodable(cx: Cx, i: Instr) -> bool {
    match i {
        Instr::Exit => false,
        Instr::CallByName { .. } => false,
        Instr::StackAlloc { .. } => false,
        Instr::Drop { .. } => false,
        Instr::Bin { op, .. } => op != BinOp::Is,
        Instr::VTableAddr { .. } => cx.vtable_offsets.len() > 0,
        Instr::CallVirt { slot, .. } => slot * 8 <= u32::MAX,
        _ => true,
    }
}

/// The 64-bit pattern `bits` into `l`: as a sign-extended 32-bit immediate
/// where it is one, else in full.
pub open spec fn const_code(s: Emit, l: Loc, bits: u64) -> Emit {
    let small = bits < 0x8000_0000 || bits >= 0xFFFF_FFFF_8000_0000;
    match l {
        Loc::Reg(r) => {
            let wide = rex(true, false, r.number() >= 8);
            if small {
                s.raw(seq![wide, 0xC7, modrm(3, 0, r.number())]).imm32(wrap32(bits as int))
            } else {
                s.raw(seq![wide, (0xB8 + r.number() % 8) as u8]).imm64(bits)
            }
        },
        Loc::Slot(k) => {
            if small {
                s.raw(seq![rex(true, false, false), 0xC7]).slot_operand(0, k).imm32(
                    wrap32(bits as int),
                )
            } else {
                s.raw(seq![rex(true, false, false), 0xB8]).imm64(bits).store_slot(k, RAX)
            }
        },
    }
}

/// A copy from home to home, through `rax` between two slots.
pub open spec fn mov_code(s: Emit, d: Loc, a: Loc) -> Emit {
    match (d, a) {
        (Loc::Reg(dr), Loc::Reg(sr)) => s.mov_rr(dr.number(), sr.number()),
        (Loc::Reg(dr), Loc::Slot(ks)) => s.load_slot(dr.number(), ks),
        (Loc::Slot(kd), Loc::Reg(sr)) => s.store_slot(kd, sr.number()),
        (Loc::Slot(kd), Loc::Slot(ks)) => s.load_slot(RAX, ks).store_slot(kd, RAX),
    }
}

/// `neg` in place where source and destination share a register.
pub open spec fn neg_code(s: Emit, d: Loc, a: Loc) -> Emit {
    if d is Reg && d == a {
        let r = d->Reg_0;
        s.raw(seq![rex(true, false, r.number() >= 8), 0xF7, modrm(3, 3, r.number())])
    } else {
        s.get(RAX, a).raw(seq![0x48, 0xF7, 0xD8]).put(RAX, d)
    }
}

/// Opcode of the two-operand form `op reg, r/m`.
pub open spec fn opcode(op: BinOp) -> Seq<u8> {
    match op {
        BinOp::Add => seq![0x03],
        BinOp::Sub => seq![0x2B],
        BinOp::Mul => seq![0x0F, 0xAF],
        BinOp::And => seq![0x23],
        BinOp::BitAnd => seq![0x23],
        BinOp::Or => seq![0x0B],
        BinOp::BitOr => seq![0x0B],
        BinOp::BitXor => seq![0x33],
        _ => seq![],
    }
}

/// `op rd, l`
pub open spec fn arith_code(s: Emit, op: BinOp, rd: u8, l: Loc) -> Emit {
    match l {
        Loc::Reg(br) => s.raw(seq![rex(true, rd >= 8, br.number() >= 8)]).raw(opcode(op)).raw(
            seq![modrm(3, rd, br.number())],
        ),
        Loc::Slot(k) => s.raw(seq![rex(true, rd >= 8, false)]).raw(opcode(op)).slot_operand(rd, k),
    }
}

/// Extension of the shift opcode: `shl`, `sar`, `shr`.
pub open spec fn shift_ext(op: BinOp) -> u8 {
    match op {
        BinOp::Shl => 4,
        BinOp::Shr => 7,
        _ => 5,
    }
}

/// An integer operation. Division takes `idiv`, whose quotient is in `rax`
/// and whose remainder is in `rdx`; a shift takes its count in `cl`. Where
/// the right operand lives in the destination register, it goes to `r11`
/// before the left one overwrites it.
pub open spec fn bin_code(s: Emit, op: BinOp, d: Loc, a: Loc, b: Loc) -> Emit {
    match op {
        BinOp::Div => s.get(RAX, a).get(R11, b).raw(seq![0x48, 0x99]).raw(
            seq![rex(true, false, true), 0xF7, modrm(3, 7, R11)],
        ).put(RAX, d),
        BinOp::Rem => s.get(RAX, a).get(R11, b).raw(seq![0x48, 0x99]).raw(
            seq![rex(true, false, true), 0xF7, modrm(3, 7, R11)],
        ).put(RDX, d),
        BinOp::Shl | BinOp::Shr | BinOp::ShrShr => s.get(RAX, a).get(RCX, b).raw(
            seq![0x48, 0xD3, modrm(3, shift_ext(op), RAX)],
        ).put(RAX, d),
        _ => match d {
            Loc::Reg(dr) => if b == d {
                s.mov_rr(R11, dr.number()).get(dr.number(), a).raw(
                    seq![rex(true, dr.number() >= 8, true)],
                ).raw(opcode(op)).raw(seq![modrm(3, dr.number(), R11)])
            } else {
                arith_code(s.get(dr.number(), a), op, dr.number(), b)
            },
            Loc::Slot(_) => arith_code(s.get(RAX, a), op, RAX, b).put(RAX, d),
        },
    }
}

/// Opcode of the `setcc` of a signed comparison.
pub open spec fn setcc(op: CmpOp) -> u8 {
    match op {
        CmpOp::Eq => 0x94,
        CmpOp::Ne => 0x95,
        CmpOp::Lt => 0x9C,
        CmpOp::Gt => 0x9F,
        CmpOp::Le => 0x9E,
        CmpOp::Ge => 0x9D,
    }
}

/// An integer comparison to 0 or 1: `cmp rax, b` with the left operand in
/// `rax`, `setcc al`, `movzx rax, al`.
pub open spec fn compare_code(s: Emit, op: CmpOp, d: Loc, a: Loc, b: Loc) -> Emit {
    let loaded = s.get(RAX, a);
    let compared = match b {
        Loc::Reg(br) => loaded.raw(
            seq![rex(true, false, br.number() >= 8), 0x3B, modrm(3, RAX, br.number())],
        ),
        Loc::Slot(k) => loaded.raw(seq![rex(true, false, false), 0x3B]).slot_operand(RAX, k),
    };
    compared.raw(seq![0x0F, setcc(op), 0xC0]).raw(
        seq![rex(true, false, false), 0x0F, 0xB6, modrm(3, RAX, RAX)],
    ).put(RAX, d)
}

/// `movq xmm0, rax`, `movq xmm1, r11`
pub open spec fn load_doubles(s: Emit) -> Emit {
    s.raw(seq![0x66, 0x48, 0x0F, 0x6E, modrm(3, 0, RAX)]).raw(
        seq![0x66, 0x49, 0x0F, 0x6E, modrm(3, 1, R11)],
    )
}

/// Last opcode byte of a double-precision operation.
pub open spec fn fopcode(op: FBinOp) -> u8 {
    match op {
        FBinOp::Add => 0x58,
        FBinOp::Sub => 0x5C,
        FBinOp::Mul => 0x59,
        FBinOp::Div => 0x5E,
    }
}

/// A double-precision operation on bit patterns: both operands go to vector
/// registers, and the result comes back through `rax`.
pub open spec fn fbin_code(s: Emit, op: FBinOp, d: Loc, a: Loc, b: Loc) -> Emit {
    load_doubles(s.get(RAX, a).get(R11, b)).raw(
        seq![0x66, 0x48, 0x0F, fopcode(op), modrm(3, 0, 1)],
    ).raw(seq![0x66, 0x48, 0x0F, 0x7E, modrm(3, 0, RAX)]).put(RAX, d)
}

/// Opcode of the `setcc` that follows `comisd`.
pub open spec fn fsetcc(op: FCmpOp) -> u8 {
    match op {
        FCmpOp::Ge => 0x93,
        FCmpOp::Gt => 0x97,
        FCmpOp::Lt => 0x92,
        FCmpOp::Le => 0x96,
        FCmpOp::Eq => 0x94,
        FCmpOp::Ne => 0x95,
    }
}

/// The correction for operands that are not numbers: `<`, `<=` and `==` are
/// false then (masked with `setnp cl`), `!=` is true (joined with `setp cl`);
/// `>` and `>=` come out false as they stand.
pub open spec fn unordered_code(s: Emit, op: FCmpOp) -> Emit {
    match op {
        FCmpOp::Ge | FCmpOp::Gt => s,
        FCmpOp::Lt | FCmpOp::Le | FCmpOp::Eq => s.raw(
            seq![0x0F, 0x9B, modrm(3, 0, RCX), 0x20, modrm(3, RCX, 0)],
        ),
        FCmpOp::Ne => s.raw(seq![0x0F, 0x9A, modrm(3, 0, RCX), 0x08, modrm(3, RCX, 0)]),
    }
}

/// A double-precision comparison to 0 or 1: `comisd xmm0, xmm1`, `setcc al`,
/// the correction for unordered operands, `movzx rax, al`.
pub open spec fn fcompare_code(s: Emit, op: FCmpOp, d: Loc, a: Loc, b: Loc) -> Emit {
    unordered_code(
        load_doubles(s.get(RAX, a).get(R11, b)).raw(seq![0x66, 0x48, 0x0F, 0x2F, modrm(3, 0, 1)]).raw(
            seq![0x0F, fsetcc(op), modrm(3, 0, 0)],
        ),
        op,
    ).raw(seq![0x48, 0x0F, 0xB6, 0xC0]).put(RAX, d)
}

/// Flips the sign bit of a double through `rcx`.
pub open spec fn fneg_code(s: Emit, d: Loc, a: Loc) -> Emit {
    s.get(RAX, a).raw(seq![0x48, 0xB9]).imm64(0x8000_0000_0000_0000).raw(
        seq![0x48, 0x31, 0xC8],
    ).put(RAX, d)
}

/// Pushes the arguments from index `hi - 1` down to index `lo`.
pub open spec fn push_args(s: Emit, loc: Seq<Loc>, args: Seq<VReg>, lo: int, hi: int) -> Emit
    decreases hi - lo,
{
    if hi <= lo {
        s
    } else {
        push_args(s.get(RAX, home(loc, args[hi - 1])).raw(seq![0x50]), loc, args, lo, hi - 1)
    }
}

/// Loads the first `n` arguments into the argument registers from index
/// `first` on.
pub open spec fn load_args(s: Emit, loc: Seq<Loc>, args: Seq<VReg>, first: int, n: int) -> Emit
    decreases n,
{
    if n <= 0 {
        s
    } else {
        load_args(s, loc, args, first, n - 1).get(ARG@[first + n - 1], home(loc, args[n - 1]))
    }
}

pub open spec fn min(a: int, b: int) -> int {
    if a <= b {
        a
    } else {
        b
    }
}

/// The arguments of a call without a receiver: six in registers, the rest on
/// the stack first.
pub open spec fn place_args(s: Emit, loc: Seq<Loc>, args: Seq<VReg>) -> Emit {
    load_args(push_args(s, loc, args, 6, args.len() as int), loc, args, 0, min(args.len() as int, 6))
}

/// The arguments of a call with a receiver in `rdi`: five in registers, then
/// the rest on the stack.
pub open spec fn place_behind_receiver(s: Emit, loc: Seq<Loc>, args: Seq<VReg>) -> Emit {
    push_args(
        load_args(s, loc, args, 1, min(args.len() as int, 5)),
        loc,
        args,
        5,
        args.len() as int,
    )
}

/// Takes the stack arguments of a call of `n` arguments off the stack.
pub open spec fn cleanup(s: Emit, n: int) -> Emit {
    if n <= 6 {
        s
    } else if (n - 6) * 8 <= 120 {
        s.raw(seq![0x48, 0x83, 0xC4, ((n - 6) * 8) as u8])
    } else {
        s.raw(seq![0x48, 0x81, 0xC4]).imm32(wrap32((n - 6) * 8))
    }
}

/// The operand `[r10 + d]`, with an 8-bit displacement where `d` is between
/// -120 and 120.
pub open spec fn field_operand(s: Emit, reg: u8, off: u32) -> Emit {
    if off <= 120 {
        s.raw(seq![modrm(1, reg, 2), off as u8])
    } else if off >= 0xFFFF_FF88 {
        s.raw(seq![modrm(1, reg, 2), (off - 0xFFFF_FF00) as u8])
    } else {
        s.raw(seq![modrm(2, reg, 2)]).imm32(off)
    }
}

/// `mov dst, [r10 + d]`
pub open spec fn field_load(s: Emit, dst: u8, off: u32) -> Emit {
    field_operand(s.raw(seq![rex(true, dst >= 8, true), 0x8B]), dst, off)
}

/// `movzx dst, byte [r10 + d]`
pub open spec fn field_load_byte(s: Emit, dst: u8, off: u32) -> Emit {
    field_operand(s.raw(seq![rex(true, dst >= 8, true), 0x0F, 0xB6]), dst, off)
}

/// `mov [r10 + d], r11`
pub open spec fn field_store(s: Emit, off: u32) -> Emit {
    field_operand(s.raw(seq![rex(true, true, true), 0x89]), R11, off)
}

/// `write(fd, string, len)` of a literal.
pub open spec fn write_str_code(s: Emit, off: u32, len: u32, fd: u32) -> Emit {
    s.raw(seq![0xBF]).imm32(fd).window(RSI, Sym::String(off as usize)).raw(seq![0xBA]).imm32(len).raw(
        seq![0xB8],
    ).imm32(1).raw(seq![0x0F, 0x05])
}

/// `write(1, obj + 16, length)` of a string object, whose length is its first
/// word.
pub open spec fn write_object_code(s: Emit, l: Loc) -> Emit {
    s.get(RSI, l).raw(seq![0x48, 0x8B, 0x16]).raw(seq![0x48, 0x83, 0xC6, 0x10]).raw(
        seq![0xBF],
    ).imm32(1).raw(seq![0xB8]).imm32(1).raw(seq![0x0F, 0x05])
}

/// Copies `r8` bytes from `[r11]` to `[r10]`, one at a time:
///
/// ```text
/// head: test r8, r8;  jz done
///       movzx rax, byte [r11];  mov [r10], al
///       inc r10;  inc r11;  dec r8;  jnz head
/// done:
/// ```
pub open spec fn mem_copy_loop(s: Emit) -> Emit {
    s.raw(seq![0x4D, 0x85, 0xC0]).raw(seq![0x74, 0x12]).raw(seq![0x49, 0x0F, 0xB6, 0x03]).raw(
        seq![0x49, 0x88, 0x02],
    ).raw(seq![0x49, 0xFF, 0xC2]).raw(seq![0x49, 0xFF, 0xC3]).raw(seq![0x49, 0xFF, 0xC8]).raw(
        seq![0x75, 0xE9],
    )
}

/// Compares `r8` bytes at `[r10]` and `[r11]`, one at a time; `rax` is 1
/// where all are equal, else 0:
///
/// ```text
/// head: test r8, r8;  jz equal
///       movzx rax, byte [r11];  cmp [r10], al;  jne differ
///       inc r10;  inc r11;  dec r8;  jnz head
/// equal:  mov eax, 1;  jmp done
/// differ: mov eax, 0
/// done:
/// ```
pub open spec fn mem_equal_loop(s: Emit) -> Emit {
    s.raw(seq![0x4D, 0x85, 0xC0]).raw(seq![0x74, 0x14]).raw(seq![0x49, 0x0F, 0xB6, 0x03]).raw(
        seq![0x49, 0x38, 0x02],
    ).raw(seq![0x75, 0x12]).raw(seq![0x49, 0xFF, 0xC2]).raw(seq![0x49, 0xFF, 0xC3]).raw(
        seq![0x49, 0xFF, 0xC8],
    ).raw(seq![0x75, 0xE7]).raw(seq![0xB8]).imm32(1).raw(seq![0xEB, 0x05]).raw(seq![0xB8]).imm32(0)
}

/// Length of the NUL-terminated string at `r8` into `rdx`:
///
/// ```text
///       xor edx, edx
/// head: mov al, [r8 + rdx];  test al, al;  jz done
///       inc rdx;  jmp head
/// done:
/// ```
pub open spec fn strlen_loop(s: Emit) -> Emit {
    s.raw(seq![0x31, 0xD2]).raw(seq![0x41, 0x8A, 0x04, 0x10]).raw(seq![0x84, 0xC0]).raw(
        seq![0x74, 0x05],
    ).raw(seq![0x48, 0xFF, 0xC2]).raw(seq![0xEB, 0xF3])
}

/// A call of the allocator with the stack aligned around it.
pub open spec fn aligned_alloc(s: Emit) -> Emit {
    s.raw(seq![0x48, 0x83, 0xEC, 0x08]).call(CallTarget::HelperAlloc).raw(
        seq![0x48, 0x83, 0xC4, 0x08],
    )
}

/// Realigns the stack, takes the count of arguments from the stack of process
/// start, and allocates an array for them with its length word set and its
/// index `r11` at zero. The count is at most 1024, and none where the stack of
/// process start was not kept; it is on the stack while the allocator runs, so
/// that the length is the one that there is room for:
///
/// ```text
///        mov rax, rsp;  and rsp, -16;  push rax
///        movabs rax, slot;  mov r9, [rax]
///        xor ecx, ecx;  test r9, r9;  jz counted
///        mov rcx, [r9];  mov rax, 1024;  cmp rcx, rax;  jbe counted
///        mov rcx, rax
/// counted:
///        lea rsi, [rcx*8 + 8];  push rcx;  (allocate);  pop rcx
///        mov rdi, rax;  mov [rdi], rcx;  xor r11, r11
/// ```
pub open spec fn argv_head(s: Emit) -> Emit {
    s.raw(seq![0x48, 0x89, 0xE0]).raw(seq![0x48, 0x83, 0xE4, 0xF0]).raw(seq![0x50]).window(
        RAX,
        Sym::ArgvRsp,
    ).raw(seq![rex(true, true, false), 0x8B, modrm(0, 1, 0)]).raw(seq![0x31, 0xC9]).raw(
        seq![0x4D, 0x85, 0xC9],
    ).raw(seq![0x74, 0x12]).raw(seq![rex(true, false, true), 0x8B, modrm(0, 1, 1)]).raw(
        seq![0x48, 0xC7, 0xC0],
    ).imm32(1024).raw(seq![0x48, 0x39, 0xC1]).raw(seq![0x76, 0x03]).raw(
        seq![0x48, 0x89, 0xC1],
    ).raw(seq![rex(true, false, false), 0x8D, 0x34, 0xCD]).imm32(8).raw(seq![0x51]).call(
        CallTarget::HelperAlloc,
    ).raw(seq![0x59]).raw(seq![0x48, 0x89, 0xC7]).raw(
        seq![rex(true, false, false), 0x89, modrm(0, 1, 7)],
    ).raw(seq![0x4D, 0x31, 0xDB])
}

/// Allocates a string object for the argument at index `r11`: its length
/// word, a reference count of 1, with the object on the stack.
///
/// ```text
/// mov rsi, [r9 + r11*8 + 8];  mov r8, rsi;  (length into rdx)
/// lea rsi, [rdx + 16];  (allocate);  push rax;  (length into rdx)
/// pop rax;  mov [rax], rdx;  mov dword [rax + 8], 1;  push rax
/// ```
pub open spec fn argv_object(s: Emit) -> Emit {
    strlen_loop(
        aligned_alloc(
            strlen_loop(
                s.raw(seq![0x4B, 0x8B, 0x74, 0xD9, 0x08]).raw(seq![0x49, 0x89, 0xF0]),
            ).raw(seq![rex(true, false, false), 0x8D, 0x72, 0x10]),
        ).raw(seq![0x50]),
    ).raw(seq![0x58]).raw(seq![0x48, 0x89, 0x10]).raw(seq![0xC7, 0x40, 0x08]).imm32(1).raw(
        seq![0x50],
    )
}

/// Copies the characters into the object and stores it in the array:
///
/// ```text
///       test rdx, rdx;  jz done;  xor ecx, ecx
/// head: mov sil, [r8 + rcx];  mov [rax + rcx + 16], sil
///       inc rcx;  cmp rcx, rdx;  jl head
/// done: pop rax;  mov [rdi + r11*8 + 8], rax;  inc r11
/// ```
pub open spec fn argv_copy(s: Emit) -> Emit {
    s.raw(seq![0x48, 0x85, 0xD2]).raw(seq![0x74, 0x16]).raw(seq![0x31, 0xC9]).raw(
        seq![0x41, 0x8A, 0x34, 0x08],
    ).raw(seq![0x48, 0x88, 0xB4, 0x08]).imm32(16).raw(seq![0x48, 0xFF, 0xC1]).raw(
        seq![0x48, 0x39, 0xD1],
    ).raw(seq![0x7C, 0xEC]).raw(seq![0x58]).raw(seq![0x4A, 0x89, 0x44, 0xDF, 0x08]).raw(
        seq![0x49, 0xFF, 0xC3],
    )
}

/// The process arguments as an array of string objects:
///
/// ```text
///       (head);  cmp r11, [rdi];  jge done
/// each: (object);  (copy);  cmp r11, [rdi];  jl each
/// done: mov rax, rdi;  pop rsp
/// ```
pub open spec fn argv_code(s: Emit, d: Loc) -> Emit {
    argv_copy(
        argv_object(
            argv_head(s).raw(seq![rex(true, true, false), 0x3B, modrm(0, 3, 7)]).raw(
                seq![0x0F, 0x8D],
            ).imm32(0x71),
        ),
    ).raw(seq![rex(true, true, false), 0x3B, modrm(0, 3, 7)]).raw(seq![0x0F, 0x8C]).imm32(
        0xFFFF_FF8F,
    ).raw(seq![0x48, 0x89, 0xF8]).raw(seq![0x5C]).put(RAX, d)
}

/// `mov esi, bytes` and a call of the allocator.
pub open spec fn alloc_code(s: Emit, bytes: u32) -> Emit {
    s.with((Uses { alloc: true, ..s.uses })).raw(seq![0xBE]).imm32(bytes).call(
        CallTarget::HelperAlloc,
    )
}

/// Whether the callee of a static call takes a receiver; one that is not
/// known counts as if it did.
pub open spec fn callee_takes_receiver(cx: Cx, fidx: u32) -> bool {
    if fidx < cx.takes_receiver.len() {
        cx.takes_receiver[fidx as int]
    } else {
        true
    }
}

/// A load from `[r10 + off]` into `d`, through `rax` for a slot.
pub open spec fn load_code(s: Emit, d: Loc, base: Loc, off: u32, byte: bool) -> Emit {
    let s = s.get(R10, base);
    match d {
        Loc::Reg(r) => if byte {
            field_load_byte(s, r.number(), off)
        } else {
            field_load(s, r.number(), off)
        },
        Loc::Slot(k) => if byte {
            field_load_byte(s, RAX, off).store_slot(k, RAX)
        } else {
            field_load(s, RAX, off).store_slot(k, RAX)
        },
    }
}

/// A virtual call: `mov r10, [rdi]`, `call qword [r10 + slot*8]`.
pub open spec fn virtual_code(
    s: Emit,
    loc: Seq<Loc>,
    d: Loc,
    slot: u32,
    recv: Loc,
    args: Seq<VReg>,
) -> Emit {
    cleanup(
        place_behind_receiver(s.get(RDI, recv), loc, args).raw(
            seq![rex(true, true, false), 0x8B, modrm(0, 2, 7)],
        ).raw(seq![rex(true, false, true), 0xFF, modrm(2, 2, 4), modrm(0, 4, 2)]).imm32(
            (slot * 8) as u32,
        ),
        args.len() as int,
    ).put(RAX, d)
}

/// A static call. A callee that takes a receiver gets zero for it, and its
/// parameters behind it.
pub open spec fn static_code(
    s: Emit,
    cx: Cx,
    loc: Seq<Loc>,
    d: Loc,
    fidx: u32,
    args: Seq<VReg>,
) -> Emit {
    let placed = if callee_takes_receiver(cx, fidx) {
        place_behind_receiver(s.raw(seq![0x31, 0xFF]), loc, args)
    } else {
        place_args(s, loc, args)
    };
    cleanup(placed.call(CallTarget::Fn(fidx)), args.len() as int).put(RAX, d)
}

/// Index `i`, or the last one of `n` where there is none such.
pub open spec fn clamp(i: int, n: int) -> int {
    if n == 0 {
        0
    } else {
        min(i, n - 1)
    }
}

/// What is emitted behind `s` for `i`, with the homes `loc`.
pub open spec fn instr_code(s: Emit, cx: Cx, loc: Seq<Loc>, i: Instr) -> Emit {
    match i {
        Instr::Const { dst, imm } => const_code(s, home(loc, dst), imm as u64),
        Instr::FConst { dst, bits } => const_code(s, home(loc, dst), bits),
        Instr::Mov { dst, a } => mov_code(s, home(loc, dst), home(loc, a)),
        Instr::Raw(bytes) => s.raw(bytes@),
        Instr::Bin { dst, op, a, b } => bin_code(
            s,
            op,
            home(loc, dst),
            home(loc, a),
            home(loc, b),
        ),
        Instr::Cmp { dst, op, a, b } => compare_code(
            s,
            op,
            home(loc, dst),
            home(loc, a),
            home(loc, b),
        ),
        Instr::Neg { dst, a } => neg_code(s, home(loc, dst), home(loc, a)),
        Instr::FBin { dst, op, a, b } => fbin_code(
            s,
            op,
            home(loc, dst),
            home(loc, a),
            home(loc, b),
        ),
        Instr::FCmp { dst, op, a, b } => fcompare_code(
            s,
            op,
            home(loc, dst),
            home(loc, a),
            home(loc, b),
        ),
        Instr::FNeg { dst, a } => fneg_code(s, home(loc, dst), home(loc, a)),
        Instr::CallFn { dst, fidx, args } => cleanup(
            place_args(s, loc, args@).call(CallTarget::Fn(fidx)),
            args@.len() as int,
        ).put(RAX, home(loc, dst)),
        Instr::CallStatic { dst, fidx, args } => static_code(
            s,
            cx,
            loc,
            home(loc, dst),
            fidx,
            args@,
        ),
        Instr::CallVirt { dst, slot, recv, args } => virtual_code(
            s,
            loc,
            home(loc, dst),
            slot,
            home(loc, recv),
            args@,
        ),
        Instr::CallImport { dst, import, args } => place_args(s, loc, args@).window(
            RAX,
            Sym::Import(import as usize),
        ).raw(seq![0xFF, 0xD0]).put(RAX, home(loc, dst)),
        Instr::LoadImport { dst, import } => s.window(RAX, Sym::Import(import as usize)).put(
            RAX,
            home(loc, dst),
        ),
        Instr::Alloc { dst, bytes } => alloc_code(s, bytes).put(RAX, home(loc, dst)),
        Instr::AllocDyn { dst, bytes } => s.with((Uses { alloc: true, ..s.uses })).get(
            RSI,
            home(loc, bytes),
        ).call(CallTarget::HelperAlloc).put(RAX, home(loc, dst)),
        Instr::TaskAlloc { dst, bytes } => alloc_code(s, bytes).raw(seq![0xC7, 0x00]).imm32(1).put(
            RAX,
            home(loc, dst),
        ),
        Instr::VTableAddr { dst, row } => s.window(
            RCX,
            Sym::VtableOff(
                cx.vtable_offsets[clamp(row as int, cx.vtable_offsets.len() as int)],
            ),
        ).put(RCX, home(loc, dst)),
        Instr::LoadStaticAddr { dst, idx } => s.window(
            RCX,
            Sym::Static(clamp(idx as int, cx.statics) as usize),
        ).put(RCX, home(loc, dst)),
        Instr::LoadStrAddr { dst, off } => s.window(RSI, Sym::String(off as usize)).put(
            RSI,
            home(loc, dst),
        ),
        Instr::LoadField { dst, base, off } => load_code(
            s,
            home(loc, dst),
            home(loc, base),
            off,
            false,
        ),
        Instr::LoadByte { dst, base, off } => load_code(
            s,
            home(loc, dst),
            home(loc, base),
            off,
            true,
        ),
        Instr::StoreField { base, off, src } => field_store(
            s.get(R10, home(loc, base)).get(R11, home(loc, src)),
            off,
        ),
        Instr::BuildArgv { dst } => argv_code(
            s.with((Uses { alloc: true, ..s.uses })),
            home(loc, dst),
        ),
        Instr::WriteStr { off, len } => write_str_code(s, off, len, 1),
        Instr::EWriteStr { off, len } => write_str_code(s, off, len, 2),
        Instr::WriteString { src } => write_object_code(s, home(loc, src)),
        Instr::WriteInt { src } => s.with((Uses { int: true, ..s.uses })).get(
            RAX,
            home(loc, src),
        ).call(CallTarget::HelperItoa),
        Instr::EWriteInt { src } => s.with((Uses { int_err: true, ..s.uses })).get(
            RAX,
            home(loc, src),
        ).call(CallTarget::HelperItoaErr),
        Instr::ScanInt { dst } => s.with((Uses { scan: true, ..s.uses })).call(
            CallTarget::HelperScanInt,
        ).put(RAX, home(loc, dst)),
        Instr::MemCpy { dst, src, len } => mem_copy_loop(
            s.get(R10, home(loc, dst)).get(R11, home(loc, src)).get(R8, home(loc, len)),
        ),
        Instr::MemCmp { dst, a, b, len } => mem_equal_loop(
            s.get(R10, home(loc, a)).get(R11, home(loc, b)).get(R8, home(loc, len)),
        ).put(RAX, home(loc, dst)),
        Instr::Retain { src } => s.with((Uses { retain: true, ..s.uses })).get(
            RAX,
            home(loc, src),
        ).call(CallTarget::HelperRetain),
        Instr::Release { src, bytes } => s.with((Uses { release: true, ..s.uses })).get(
            RAX,
            home(loc, src),
        ).raw(seq![0xBE]).imm32(bytes).call(CallTarget::HelperRelease),
        Instr::HandlerEnter { dst } => s.call(CallTarget::HelperExcEnter).put(RAX, home(loc, dst)),
        Instr::HandlerPop => s.call(CallTarget::HelperExcPop),
        Instr::LoadExc { dst } => s.call(CallTarget::HelperExcLoad).put(RAX, home(loc, dst)),
        Instr::ClearInflight => s.call(CallTarget::HelperExcClear),
        Instr::Suspend { .. } => s.raw(seq![0x90]),
        Instr::CoroutineResume { task, dst } => match home(loc, dst) {
            Loc::Reg(r) => s.get(r.number(), home(loc, task)),
            Loc::Slot(k) => s.get(RAX, home(loc, task)).store_slot(k, RAX),
        },
        // No code: see `encodable`.
        Instr::CallByName { .. } => s,
        Instr::StackAlloc { .. } => s,
        Instr::Drop { .. } => s,
        Instr::Exit => s,
    }
}

/// Whether `i` deals with constants, copies and arithmetic.
pub open spec fn is_arith(i: Instr) -> bool {
    match i {
        Instr::Const { .. } => true,
        Instr::FConst { .. } => true,
        Instr::Mov { .. } => true,
        Instr::Raw(_) => true,
        Instr::Bin { .. } => true,
        Instr::Cmp { .. } => true,
        Instr::Neg { .. } => true,
        Instr::FBin { .. } => true,
        Instr::FCmp { .. } => true,
        Instr::FNeg { .. } => true,
        _ => false,
    }
}

/// Whether `i` deals with calls.
pub open spec fn is_call_instr(i: Instr) -> bool {
    match i {
        Instr::CallFn { .. } => true,
        Instr::CallStatic { .. } => true,
        Instr::CallVirt { .. } => true,
        Instr::CallImport { .. } => true,
        Instr::LoadImport { .. } => true,
        _ => false,
    }
}

/// Whether `i` deals with memory.
pub open spec fn is_memory(i: Instr) -> bool {
    match i {
        Instr::Alloc { .. } => true,
        Instr::AllocDyn { .. } => true,
        Instr::TaskAlloc { .. } => true,
        Instr::VTableAddr { .. } => true,
        Instr::LoadStaticAddr { .. } => true,
        Instr::LoadStrAddr { .. } => true,
        Instr::LoadField { .. } => true,
        Instr::LoadByte { .. } => true,
        Instr::StoreField { .. } => true,
        Instr::MemCpy { .. } => true,
        Instr::MemCmp { .. } => true,
        _ => false,
    }
}

/// Whether `i` deals with input and output.
pub open spec fn is_io(i: Instr) -> bool {
    match i {
        Instr::BuildArgv { .. } => true,
        Instr::WriteStr { .. } => true,
        Instr::EWriteStr { .. } => true,
        Instr::WriteString { .. } => true,
        Instr::WriteInt { .. } => true,
        Instr::EWriteInt { .. } => true,
        Instr::ScanInt { .. } => true,
        _ => false,
    }
}

/// Whether `i` deals with the runtime system.
pub open spec fn is_runtime(i: Instr) -> bool {
    match i {
        Instr::Retain { .. } => true,
        Instr::Release { .. } => true,
        Instr::HandlerEnter { .. } => true,
        Instr::HandlerPop => true,
        Instr::LoadExc { .. } => true,
        Instr::ClearInflight => true,
        Instr::Suspend { .. } => true,
        Instr::CoroutineResume { .. } => true,
        _ => false,
    }
}

// ---- emission

/// The low 32 bits of a size in bytes depend on the low 29 bits of the size
/// in words.
proof fn lemma_words_wrap(x: int)
    requires
        0 <= x,
    ensures
        x * 8 % 0x1_0000_0000 == x % 0x2000_0000 * 8,
{
    let q = x / 0x2000_0000;
    let r = x % 0x2000_0000;
    assert(x * 8 == q * 0x1_0000_0000 + r * 8);
    vstd::arithmetic::div_mod::lemma_fundamental_div_mod_converse(
        x * 8,
        0x1_0000_0000,
        q,
        r * 8,
    );
}

fn home_of(loc: &Vec<Loc>, v: VReg) -> (l: Loc)
    requires
        v.0 < loc@.len(),
        homes_ok(loc@),
    ensures
        l == home(loc@, v),
        home_ok(l),
{
    loc[v.0 as usize]
}

impl Emitter {
    fn load_const(&mut self, l: Loc, bits: u64)
        requires
            old(self).ok(),
            home_ok(l),
        ensures
            emitted(*old(self), *final(self), const_code(old(self)@, l, bits)),
    {
        let small: bool = bits < 0x8000_0000 || bits >= 0xFFFF_FFFF_8000_0000;
        let low: u32 = (bits % 0x1_0000_0000) as u32;
        match l {
            Loc::Reg(r) => {
                if small {
                    self.raw3(
                        rex_byte(true, false, r.needs_rex()),
                        0xC7,
                        modrm_byte(3, 0, r.id()),
                    );
                    self.imm32(low);
                } else {
                    self.raw2(rex_byte(true, false, r.needs_rex()), 0xB8 + r.id() % 8);
                    self.imm64(bits);
                }
            },
            Loc::Slot(k) => {
                if small {
                    self.raw2(rex_byte(true, false, false), 0xC7);
                    self.slot_operand(0, k);
                    self.imm32(low);
                } else {
                    self.raw2(rex_byte(true, false, false), 0xB8);
                    self.imm64(bits);
                    self.store_slot(k, RAX);
                }
            },
        }
    }

    fn mov(&mut self, d: Loc, a: Loc)
        requires
            old(self).ok(),
            home_ok(d),
            home_ok(a),
        ensures
            emitted(*old(self), *final(self), mov_code(old(self)@, d, a)),
    {
        match (d, a) {
            (Loc::Reg(dr), Loc::Reg(sr)) => self.mov_rr(dr.id(), sr.id()),
            (Loc::Reg(dr), Loc::Slot(ks)) => self.load_slot(dr.id(), ks),
            (Loc::Slot(kd), Loc::Reg(sr)) => self.store_slot(kd, sr.id()),
            (Loc::Slot(kd), Loc::Slot(ks)) => {
                self.load_slot(RAX, ks);
                self.store_slot(kd, RAX);
            },
        }
    }

    fn neg(&mut self, d: Loc, a: Loc)
        requires
            old(self).ok(),
            home_ok(d),
            home_ok(a),
        ensures
            emitted(*old(self), *final(self), neg_code(old(self)@, d, a)),
    {
        if let Loc::Reg(r) = d {
            if d == a {
                self.raw3(rex_byte(true, false, r.needs_rex()), 0xF7, modrm_byte(3, 3, r.id()));
                return ;
            }
        }
        self.get(RAX, a);
        self.raw3(0x48, 0xF7, 0xD8);
        self.put(RAX, d);
    }

    fn opcode(&mut self, op: BinOp)
        requires
            old(self).ok(),
        ensures
            emitted(*old(self), *final(self), old(self)@.raw(opcode(op))),
    {
        match op {
            BinOp::Add => self.raw1(0x03),
            BinOp::Sub => self.raw1(0x2B),
            BinOp::Mul => self.raw2(0x0F, 0xAF),
            BinOp::And => self.raw1(0x23),
            BinOp::BitAnd => self.raw1(0x23),
            BinOp::Or => self.raw1(0x0B),
            BinOp::BitOr => self.raw1(0x0B),
            BinOp::BitXor => self.raw1(0x33),
            _ => {
                assert(old(self)@.raw(opcode(op)) =~= old(self)@);
            },
        }
    }

    fn arith(&mut self, op: BinOp, rd: u8, l: Loc)
        requires
            old(self).ok(),
            home_ok(l),
        ensures
            emitted(*old(self), *final(self), arith_code(old(self)@, op, rd, l)),
    {
        match l {
            Loc::Reg(br) => {
                self.raw1(rex_byte(true, rd >= 8, br.needs_rex()));
                self.opcode(op);
                self.raw1(modrm_byte(3, rd, br.id()));
            },
            Loc::Slot(k) => {
                self.raw1(rex_byte(true, rd >= 8, false));
                self.opcode(op);
                self.slot_operand(rd, k);
            },
        }
    }

    fn bin(&mut self, op: BinOp, d: Loc, a: Loc, b: Loc)
        requires
            old(self).ok(),
            home_ok(d),
            home_ok(a),
            home_ok(b),
        ensures
            emitted(*old(self), *final(self), bin_code(old(self)@, op, d, a, b)),
    {
        match op {
            BinOp::Div => {
                self.get(RAX, a);
                self.get(R11, b);
                self.raw2(0x48, 0x99);
                self.raw3(rex_byte(true, false, true), 0xF7, modrm_byte(3, 7, R11));
                self.put(RAX, d);
            },
            BinOp::Rem => {
                self.get(RAX, a);
                self.get(R11, b);
                self.raw2(0x48, 0x99);
                self.raw3(rex_byte(true, false, true), 0xF7, modrm_byte(3, 7, R11));
                self.put(RDX, d);
            },
            BinOp::Shl | BinOp::Shr | BinOp::ShrShr => {
                let ext: u8 = match op {
                    BinOp::Shl => 4,
                    BinOp::Shr => 7,
                    _ => 5,
                };
                self.get(RAX, a);
                self.get(RCX, b);
                self.raw3(0x48, 0xD3, modrm_byte(3, ext, RAX));
                self.put(RAX, d);
            },
            _ => match d {
                Loc::Reg(dr) => {
                    if b == d {
                        self.mov_rr(R11, dr.id());
                        self.get(dr.id(), a);
                        self.raw1(rex_byte(true, dr.id() >= 8, true));
                        self.opcode(op);
                        self.raw1(modrm_byte(3, dr.id(), R11));
                    } else {
                        self.get(dr.id(), a);
                        self.arith(op, dr.id(), b);
                    }
                },
                Loc::Slot(_) => {
                    self.get(RAX, a);
                    self.arith(op, RAX, b);
                    self.put(RAX, d);
                },
            },
        }
    }

    fn compare(&mut self, op: CmpOp, d: Loc, a: Loc, b: Loc)
        requires
            old(self).ok(),
            home_ok(d),
            home_ok(a),
            home_ok(b),
        ensures
            emitted(*old(self), *final(self), compare_code(old(self)@, op, d, a, b)),
    {
        let set: u8 = match op {
            CmpOp::Eq => 0x94,
            CmpOp::Ne => 0x95,
            CmpOp::Lt => 0x9C,
            CmpOp::Gt => 0x9F,
            CmpOp::Le => 0x9E,
            CmpOp::Ge => 0x9D,
        };
        self.get(RAX, a);
        match b {
            Loc::Reg(br) => {
                self.raw3(
                    rex_byte(true, false, br.needs_rex()),
                    0x3B,
                    modrm_byte(3, RAX, br.id()),
                );
            },
            Loc::Slot(k) => {
                self.raw2(rex_byte(true, false, false), 0x3B);
                self.slot_operand(RAX, k);
            },
        }
        self.raw3(0x0F, set, 0xC0);
        self.raw4(rex_byte(true, false, false), 0x0F, 0xB6, modrm_byte(3, RAX, RAX));
        self.put(RAX, d);
    }

    fn load_fops(&mut self)
        requires
            old(self).ok(),
        ensures
            emitted(*old(self), *final(self), load_doubles(old(self)@)),
    {
        self.raw5(0x66, 0x48, 0x0F, 0x6E, modrm_byte(3, 0, RAX));
        self.raw5(0x66, 0x49, 0x0F, 0x6E, modrm_byte(3, 1, R11));
    }

    fn fbin(&mut self, op: FBinOp, d: Loc, a: Loc, b: Loc)
        requires
            old(self).ok(),
            home_ok(d),
            home_ok(a),
            home_ok(b),
        ensures
            emitted(*old(self), *final(self), fbin_code(old(self)@, op, d, a, b)),
    {
        let last: u8 = match op {
            FBinOp::Add => 0x58,
            FBinOp::Sub => 0x5C,
            FBinOp::Mul => 0x59,
            FBinOp::Div => 0x5E,
        };
        self.get(RAX, a);
        self.get(R11, b);
        self.load_fops();
        self.raw5(0x66, 0x48, 0x0F, last, modrm_byte(3, 0, 1));
        self.raw5(0x66, 0x48, 0x0F, 0x7E, modrm_byte(3, 0, RAX));
        self.put(RAX, d);
    }

    fn fcompare(&mut self, op: FCmpOp, d: Loc, a: Loc, b: Loc)
        requires
            old(self).ok(),
            home_ok(d),
            home_ok(a),
            home_ok(b),
        ensures
            emitted(*old(self), *final(self), fcompare_code(old(self)@, op, d, a, b)),
    {
        let set: u8 = match op {
            FCmpOp::Ge => 0x93,
            FCmpOp::Gt => 0x97,
            FCmpOp::Lt => 0x92,
            FCmpOp::Le => 0x96,
            FCmpOp::Eq => 0x94,
            FCmpOp::Ne => 0x95,
        };
        self.get(RAX, a);
        self.get(R11, b);
        self.load_fops();
        self.raw5(0x66, 0x48, 0x0F, 0x2F, modrm_byte(3, 0, 1));
        self.raw3(0x0F, set, modrm_byte(3, 0, 0));
        match op {
            FCmpOp::Ge | FCmpOp::Gt => {},
            FCmpOp::Lt | FCmpOp::Le | FCmpOp::Eq => {
                self.raw5(0x0F, 0x9B, modrm_byte(3, 0, RCX), 0x20, modrm_byte(3, RCX, 0));
            },
            FCmpOp::Ne => {
                self.raw5(0x0F, 0x9A, modrm_byte(3, 0, RCX), 0x08, modrm_byte(3, RCX, 0));
            },
        }
        self.raw4(0x48, 0x0F, 0xB6, 0xC0);
        self.put(RAX, d);
    }

    fn fneg(&mut self, d: Loc, a: Loc)
        requires
            old(self).ok(),
            home_ok(d),
            home_ok(a),
        ensures
            emitted(*old(self), *final(self), fneg_code(old(self)@, d, a)),
    {
        self.get(RAX, a);
        self.raw2(0x48, 0xB9);
        self.imm64(0x8000_0000_0000_0000);
        self.raw3(0x48, 0x31, 0xC8);
        self.put(RAX, d);
    }

    fn push_args(&mut self, loc: &Vec<Loc>, args: &Vec<VReg>, lo: usize)
        requires
            old(self).ok(),
            homes_ok(loc@),
            args_in_range(args@, loc@.len() as int),
        ensures
            emitted(
                *old(self),
                *final(self),
                push_args(old(self)@, loc@, args@, lo as int, args@.len() as int),
            ),
    {
        let ghost whole = push_args(self@, loc@, args@, lo as int, args@.len() as int);
        let ghost start = self@;
        let mut hi: usize = args.len();
        while hi > lo
            invariant
                hi <= args@.len(),
                self.ok(),
                self.exc == old(self).exc,
                self.argv == old(self).argv,
                extends(start.code, self.code@),
                homes_ok(loc@),
                args_in_range(args@, loc@.len() as int),
                push_args(self@, loc@, args@, lo as int, hi as int) == whole,
            decreases hi,
        {
            hi -= 1;
            self.get(RAX, home_of(loc, args[hi]));
            self.raw1(0x50);
        }
    }

    fn load_args(&mut self, loc: &Vec<Loc>, args: &Vec<VReg>, first: usize, n: usize)
        requires
            old(self).ok(),
            homes_ok(loc@),
            args_in_range(args@, loc@.len() as int),
            n <= args@.len(),
            first <= 1,
            first + n <= ARG@.len(),
        ensures
            emitted(
                *old(self),
                *final(self),
                load_args(old(self)@, loc@, args@, first as int, n as int),
            ),
    {
        let ghost start = self@;
        let mut k: usize = 0;
        while k < n
            invariant
                k <= n <= args@.len(),
                first <= 1,
                first + n <= ARG@.len(),
                self.ok(),
                self.exc == old(self).exc,
                self.argv == old(self).argv,
                extends(start.code, self.code@),
                homes_ok(loc@),
                args_in_range(args@, loc@.len() as int),
                self@ == load_args(start, loc@, args@, first as int, k as int),
            decreases n - k,
        {
            self.get(ARG[first + k], home_of(loc, args[k]));
            k += 1;
        }
    }

    fn place_args(&mut self, loc: &Vec<Loc>, args: &Vec<VReg>)
        requires
            old(self).ok(),
            homes_ok(loc@),
            args_in_range(args@, loc@.len() as int),
        ensures
            emitted(*old(self), *final(self), place_args(old(self)@, loc@, args@)),
    {
        self.push_args(loc, args, 6);
        let n: usize = if args.len() < 6 {
            args.len()
        } else {
            6
        };
        self.load_args(loc, args, 0, n);
    }

    fn place_behind_receiver(&mut self, loc: &Vec<Loc>, args: &Vec<VReg>)
        requires
            old(self).ok(),
            homes_ok(loc@),
            args_in_range(args@, loc@.len() as int),
        ensures
            emitted(*old(self), *final(self), place_behind_receiver(old(self)@, loc@, args@)),
    {
        let n: usize = if args.len() < 5 {
            args.len()
        } else {
            5
        };
        self.load_args(loc, args, 1, n);
        self.push_args(loc, args, 5);
    }

    fn cleanup_tail(&mut self, n: usize)
        requires
            old(self).ok(),
        ensures
            emitted(*old(self), *final(self), cleanup(old(self)@, n as int)),
    {
        if n > 6 {
            if n <= 21 {
                self.raw4(0x48, 0x83, 0xC4, (n as u8 - 6) * 8);
            } else {
                self.raw3(0x48, 0x81, 0xC4);
                let low: u64 = (n - 6) as u64 % 0x2000_0000;
                proof {
                    lemma_words_wrap(n - 6);
                }
                self.imm32((low * 8) as u32);
            }
        }
    }

    fn field_operand(&mut self, reg: u8, off: u32)
        requires
            old(self).ok(),
        ensures
            emitted(*old(self), *final(self), field_operand(old(self)@, reg, off)),
    {
        if off <= 120 {
            self.raw2(modrm_byte(1, reg, 2), off as u8);
        } else if off >= 0xFFFF_FF88 {
            self.raw2(modrm_byte(1, reg, 2), (off - 0xFFFF_FF00) as u8);
        } else {
            self.raw1(modrm_byte(2, reg, 2));
            self.imm32(off);
        }
    }

    fn field_load(&mut self, dst: u8, off: u32)
        requires
            old(self).ok(),
        ensures
            emitted(*old(self), *final(self), field_load(old(self)@, dst, off)),
    {
        self.raw2(rex_byte(true, dst >= 8, true), 0x8B);
        self.field_operand(dst, off);
    }

    fn field_load_byte(&mut self, dst: u8, off: u32)
        requires
            old(self).ok(),
        ensures
            emitted(*old(self), *final(self), field_load_byte(old(self)@, dst, off)),
    {
        self.raw3(rex_byte(true, dst >= 8, true), 0x0F, 0xB6);
        self.field_operand(dst, off);
    }

    fn field_store(&mut self, off: u32)
        requires
            old(self).ok(),
        ensures
            emitted(*old(self), *final(self), field_store(old(self)@, off)),
    {
        self.raw2(rex_byte(true, true, true), 0x89);
        self.field_operand(R11, off);
    }

    fn load_from(&mut self, d: Loc, base: Loc, off: u32, byte: bool)
        requires
            old(self).ok(),
            home_ok(d),
            home_ok(base),
        ensures
            emitted(*old(self), *final(self), load_code(old(self)@, d, base, off, byte)),
    {
        self.get(R10, base);
        match d {
            Loc::Reg(r) => {
                if byte {
                    self.field_load_byte(r.id(), off);
                } else {
                    self.field_load(r.id(), off);
                }
            },
            Loc::Slot(k) => {
                if byte {
                    self.field_load_byte(RAX, off);
                } else {
                    self.field_load(RAX, off);
                }
                self.store_slot(k, RAX);
            },
        }
    }

    fn write_str_syscall(&mut self, off: u32, len: u32, fd: u32)
        requires
            old(self).ok(),
        ensures
            emitted(*old(self), *final(self), write_str_code(old(self)@, off, len, fd)),
    {
        self.raw1(0xBF);
        self.imm32(fd);
        self.abs64_window(RSI, Sym::String(off as usize));
        self.raw1(0xBA);
        self.imm32(len);
        self.raw1(0xB8);
        self.imm32(1);
        self.raw2(0x0F, 0x05);
    }

    fn write_object(&mut self, l: Loc)
        requires
            old(self).ok(),
            home_ok(l),
        ensures
            emitted(*old(self), *final(self), write_object_code(old(self)@, l)),
    {
        self.get(RSI, l);
        self.raw3(0x48, 0x8B, 0x16);
        self.raw4(0x48, 0x83, 0xC6, 0x10);
        self.raw1(0xBF);
        self.imm32(1);
        self.raw1(0xB8);
        self.imm32(1);
        self.raw2(0x0F, 0x05);
    }

    fn copy_loop(&mut self)
        requires
            old(self).ok(),
        ensures
            emitted(*old(self), *final(self), mem_copy_loop(old(self)@)),
    {
        self.raw3(0x4D, 0x85, 0xC0);
        self.raw2(0x74, 0x12);
        self.raw4(0x49, 0x0F, 0xB6, 0x03);
        self.raw3(0x49, 0x88, 0x02);
        self.raw3(0x49, 0xFF, 0xC2);
        self.raw3(0x49, 0xFF, 0xC3);
        self.raw3(0x49, 0xFF, 0xC8);
        self.raw2(0x75, 0xE9);
    }

    fn equal_loop(&mut self)
        requires
            old(self).ok(),
        ensures
            emitted(*old(self), *final(self), mem_equal_loop(old(self)@)),
    {
        self.raw3(0x4D, 0x85, 0xC0);
        self.raw2(0x74, 0x14);
        self.raw4(0x49, 0x0F, 0xB6, 0x03);
        self.raw3(0x49, 0x38, 0x02);
        self.raw2(0x75, 0x12);
        self.raw3(0x49, 0xFF, 0xC2);
        self.raw3(0x49, 0xFF, 0xC3);
        self.raw3(0x49, 0xFF, 0xC8);
        self.raw2(0x75, 0xE7);
        self.raw1(0xB8);
        self.imm32(1);
        self.raw2(0xEB, 0x05);
        self.raw1(0xB8);
        self.imm32(0);
    }

    fn strlen(&mut self)
        requires
            old(self).ok(),
        ensures
            emitted(*old(self), *final(self), strlen_loop(old(self)@)),
    {
        self.raw2(0x31, 0xD2);
        self.raw4(0x41, 0x8A, 0x04, 0x10);
        self.raw2(0x84, 0xC0);
        self.raw2(0x74, 0x05);
        self.raw3(0x48, 0xFF, 0xC2);
        self.raw2(0xEB, 0xF3);
    }

    fn call_alloc_aligned(&mut self)
        requires
            old(self).ok(),
            old(self).uses.alloc,
        ensures
            emitted(*old(self), *final(self), aligned_alloc(old(self)@)),
            final(self).uses == old(self).uses,
    {
        self.raw4(0x48, 0x83, 0xEC, 0x08);
        self.call_rel32(CallTarget::HelperAlloc);
        self.raw4(0x48, 0x83, 0xC4, 0x08);
    }

    fn argv_head(&mut self)
        requires
            old(self).ok(),
            old(self).uses.alloc,
            old(self).argv,
        ensures
            emitted(*old(self), *final(self), argv_head(old(self)@)),
            final(self).uses == old(self).uses,
    {
        self.raw3(0x48, 0x89, 0xE0);
        self.raw4(0x48, 0x83, 0xE4, 0xF0);
        self.raw1(0x50);
        self.abs64_window(RAX, Sym::ArgvRsp);
        self.raw3(rex_byte(true, true, false), 0x8B, modrm_byte(0, 1, 0));
        self.raw2(0x31, 0xC9);
        self.raw3(0x4D, 0x85, 0xC9);
        self.raw2(0x74, 0x12);
        self.raw3(rex_byte(true, false, true), 0x8B, modrm_byte(0, 1, 1));
        self.raw3(0x48, 0xC7, 0xC0);
        self.imm32(1024);
        self.raw3(0x48, 0x39, 0xC1);
        self.raw2(0x76, 0x03);
        self.raw3(0x48, 0x89, 0xC1);
        self.raw4(rex_byte(true, false, false), 0x8D, 0x34, 0xCD);
        self.imm32(8);
        self.raw1(0x51);
        self.call_rel32(CallTarget::HelperAlloc);
        self.raw1(0x59);
        self.raw3(0x48, 0x89, 0xC7);
        self.raw3(rex_byte(true, false, false), 0x89, modrm_byte(0, 1, 7));
        self.raw3(0x4D, 0x31, 0xDB);
    }

    fn argv_object(&mut self)
        requires
            old(self).ok(),
            old(self).uses.alloc,
        ensures
            emitted(*old(self), *final(self), argv_object(old(self)@)),
            final(self).uses == old(self).uses,
    {
        self.raw5(0x4B, 0x8B, 0x74, 0xD9, 0x08);
        self.raw3(0x49, 0x89, 0xF0);
        self.strlen();
        self.raw4(rex_byte(true, false, false), 0x8D, 0x72, 0x10);
        self.call_alloc_aligned();
        self.raw1(0x50);
        self.strlen();
        self.raw1(0x58);
        self.raw3(0x48, 0x89, 0x10);
        self.raw3(0xC7, 0x40, 0x08);
        self.imm32(1);
        self.raw1(0x50);
    }

    fn argv_copy(&mut self)
        requires
            old(self).ok(),
        ensures
            emitted(*old(self), *final(self), argv_copy(old(self)@)),
    {
        self.raw3(0x48, 0x85, 0xD2);
        self.raw2(0x74, 0x16);
        self.raw2(0x31, 0xC9);
        self.raw4(0x41, 0x8A, 0x34, 0x08);
        self.raw4(0x48, 0x88, 0xB4, 0x08);
        self.imm32(16);
        self.raw3(0x48, 0xFF, 0xC1);
        self.raw3(0x48, 0x39, 0xD1);
        self.raw2(0x7C, 0xEC);
        self.raw1(0x58);
        self.raw5(0x4A, 0x89, 0x44, 0xDF, 0x08);
        self.raw3(0x49, 0xFF, 0xC3);
    }

    fn build_argv(&mut self, d: Loc)
        requires
            old(self).ok(),
            old(self).uses.alloc,
            old(self).argv,
            home_ok(d),
        ensures
            emitted(*old(self), *final(self), argv_code(old(self)@, d)),
    {
        self.argv_head();
        self.raw3(rex_byte(true, true, false), 0x3B, modrm_byte(0, 3, 7));
        self.raw2(0x0F, 0x8D);
        self.imm32(0x71);
        self.argv_object();
        self.argv_copy();
        self.raw3(rex_byte(true, true, false), 0x3B, modrm_byte(0, 3, 7));
        self.raw2(0x0F, 0x8C);
        self.imm32(0xFFFF_FF8F);
        self.raw3(0x48, 0x89, 0xF8);
        self.raw1(0x5C);
        self.put(RAX, d);
    }
}

impl Emitter {
    fn call_alloc(&mut self, bytes: u32)
        requires
            old(self).ok(),
        ensures
            emitted(*old(self), *final(self), alloc_code(old(self)@, bytes)),
    {
        self.need(Uses { alloc: true, ..self.uses });
        self.raw1(0xBE);
        self.imm32(bytes);
        self.call_rel32(CallTarget::HelperAlloc);
    }

    fn call_fn(&mut self, loc: &Vec<Loc>, d: Loc, fidx: u32, args: &Vec<VReg>)
        requires
            old(self).ok(),
            homes_ok(loc@),
            args_in_range(args@, loc@.len() as int),
            home_ok(d),
        ensures
            emitted(
                *old(self),
                *final(self),
                cleanup(
                    place_args(old(self)@, loc@, args@).call(CallTarget::Fn(fidx)),
                    args@.len() as int,
                ).put(RAX, d),
            ),
    {
        self.place_args(loc, args);
        self.call_rel32(CallTarget::Fn(fidx));
        self.cleanup_tail(args.len());
        self.put(RAX, d);
    }

    fn call_static(&mut self, cx: &Context, loc: &Vec<Loc>, d: Loc, fidx: u32, args: &Vec<VReg>)
        requires
            old(self).ok(),
            homes_ok(loc@),
            args_in_range(args@, loc@.len() as int),
            home_ok(d),
        ensures
            emitted(*old(self), *final(self), static_code(old(self)@, cx@, loc@, d, fidx, args@)),
    {
        let receiver: bool = if (fidx as usize) < cx.takes_receiver.len() {
            cx.takes_receiver[fidx as usize]
        } else {
            true
        };
        if receiver {
            self.raw2(0x31, 0xFF);
            self.place_behind_receiver(loc, args);
        } else {
            self.place_args(loc, args);
        }
        self.call_rel32(CallTarget::Fn(fidx));
        self.cleanup_tail(args.len());
        self.put(RAX, d);
    }

    fn call_virt(&mut self, loc: &Vec<Loc>, d: Loc, slot: u32, recv: Loc, args: &Vec<VReg>)
        requires
            old(self).ok(),
            homes_ok(loc@),
            args_in_range(args@, loc@.len() as int),
            home_ok(d),
            home_ok(recv),
            slot * 8 <= u32::MAX,
        ensures
            emitted(*old(self), *final(self), virtual_code(old(self)@, loc@, d, slot, recv, args@)),
    {
        self.get(RDI, recv);
        self.place_behind_receiver(loc, args);
        self.raw3(rex_byte(true, true, false), 0x8B, modrm_byte(0, 2, 7));
        self.raw4(rex_byte(true, false, true), 0xFF, modrm_byte(2, 2, 4), modrm_byte(0, 4, 2));
        self.imm32(slot * 8);
        self.cleanup_tail(args.len());
        self.put(RAX, d);
    }

    fn mem_copy(&mut self, to: Loc, from: Loc, len: Loc)
        requires
            old(self).ok(),
            home_ok(to),
            home_ok(from),
            home_ok(len),
        ensures
            emitted(
                *old(self),
                *final(self),
                mem_copy_loop(old(self)@.get(R10, to).get(R11, from).get(R8, len)),
            ),
    {
        self.get(R10, to);
        self.get(R11, from);
        self.get(R8, len);
        self.copy_loop();
    }

    fn mem_equal(&mut self, d: Loc, a: Loc, b: Loc, len: Loc)
        requires
            old(self).ok(),
            home_ok(d),
            home_ok(a),
            home_ok(b),
            home_ok(len),
        ensures
            emitted(
                *old(self),
                *final(self),
                mem_equal_loop(old(self)@.get(R10, a).get(R11, b).get(R8, len)).put(RAX, d),
            ),
    {
        self.get(R10, a);
        self.get(R11, b);
        self.get(R8, len);
        self.equal_loop();
        self.put(RAX, d);
    }

    /// Calls helper `t`, which is brought along, on the value in `l`.
    fn call_on(&mut self, uses: Uses, t: CallTarget, l: Loc)
        requires
            old(self).ok(),
            home_ok(l),
            forall|x: CallTarget|
                helper_ready(old(self).uses, old(self).exc, x)
                    ==> #[trigger] helper_ready(uses, old(self).exc, x),
            helper_ready(uses, old(self).exc, t),
        ensures
            emitted(*old(self), *final(self), old(self)@.with(uses).get(RAX, l).call(t)),
    {
        self.need(uses);
        self.get(RAX, l);
        self.call_rel32(t);
    }

    fn arith_instr(&mut self, cx: &Context, loc: &Vec<Loc>, i: &Instr)
        requires
            old(self).ok(),
            homes_ok(loc@),
            in_range(*i, loc@.len() as int),
            encodable(cx@, *i),
            uses_exc(*i) ==> old(self).exc,
            *i is BuildArgv ==> old(self).argv,
            is_arith(*i),
        ensures
            emitted(*old(self), *final(self), instr_code(old(self)@, cx@, loc@, *i)),
    {
        match i {
            Instr::Const { dst, imm } => self.load_const(home_of(loc, *dst), *imm as u64),
            Instr::FConst { dst, bits } => self.load_const(home_of(loc, *dst), *bits),
            Instr::Mov { dst, a } => self.mov(home_of(loc, *dst), home_of(loc, *a)),
            Instr::Raw(b) => self.bytes(b.as_slice()),
            Instr::Bin { dst, op, a, b } => self.bin(
                *op,
                home_of(loc, *dst),
                home_of(loc, *a),
                home_of(loc, *b),
            ),
            Instr::Cmp { dst, op, a, b } => self.compare(
                *op,
                home_of(loc, *dst),
                home_of(loc, *a),
                home_of(loc, *b),
            ),
            Instr::Neg { dst, a } => self.neg(home_of(loc, *dst), home_of(loc, *a)),
            Instr::FBin { dst, op, a, b } => self.fbin(
                *op,
                home_of(loc, *dst),
                home_of(loc, *a),
                home_of(loc, *b),
            ),
            Instr::FCmp { dst, op, a, b } => self.fcompare(
                *op,
                home_of(loc, *dst),
                home_of(loc, *a),
                home_of(loc, *b),
            ),
            Instr::FNeg { dst, a } => self.fneg(home_of(loc, *dst), home_of(loc, *a)),
            _ => {},
        }
    }

    fn call_instr(&mut self, cx: &Context, loc: &Vec<Loc>, i: &Instr)
        requires
            old(self).ok(),
            homes_ok(loc@),
            in_range(*i, loc@.len() as int),
            encodable(cx@, *i),
            uses_exc(*i) ==> old(self).exc,
            *i is BuildArgv ==> old(self).argv,
            is_call_instr(*i),
        ensures
            emitted(*old(self), *final(self), instr_code(old(self)@, cx@, loc@, *i)),
    {
        match i {
            Instr::CallFn { dst, fidx, args } => self.call_fn(
                loc,
                home_of(loc, *dst),
                *fidx,
                args,
            ),
            Instr::CallStatic { dst, fidx, args } => self.call_static(
                cx,
                loc,
                home_of(loc, *dst),
                *fidx,
                args,
            ),
            Instr::CallVirt { dst, slot, recv, args } => self.call_virt(
                loc,
                home_of(loc, *dst),
                *slot,
                home_of(loc, *recv),
                args,
            ),
            Instr::CallImport { dst, import, args } => {
                self.place_args(loc, args);
                self.abs64_window(RAX, Sym::Import(*import as usize));
                self.raw2(0xFF, 0xD0);
                self.put(RAX, home_of(loc, *dst));
            },
            Instr::LoadImport { dst, import } => {
                self.abs64_window(RAX, Sym::Import(*import as usize));
                self.put(RAX, home_of(loc, *dst));
            },
            _ => {},
        }
    }

    fn memory_instr(&mut self, cx: &Context, loc: &Vec<Loc>, i: &Instr)
        requires
            old(self).ok(),
            homes_ok(loc@),
            in_range(*i, loc@.len() as int),
            encodable(cx@, *i),
            uses_exc(*i) ==> old(self).exc,
            *i is BuildArgv ==> old(self).argv,
            is_memory(*i),
        ensures
            emitted(*old(self), *final(self), instr_code(old(self)@, cx@, loc@, *i)),
    {
        match i {
            Instr::Alloc { dst, bytes } => {
                self.call_alloc(*bytes);
                self.put(RAX, home_of(loc, *dst));
            },
            Instr::AllocDyn { dst, bytes } => {
                self.need(Uses { alloc: true, ..self.uses });
                self.get(RSI, home_of(loc, *bytes));
                self.call_rel32(CallTarget::HelperAlloc);
                self.put(RAX, home_of(loc, *dst));
            },
            Instr::TaskAlloc { dst, bytes } => {
                self.call_alloc(*bytes);
                // The frame starts out in the running state.
                self.raw2(0xC7, 0x00);
                self.imm32(1);
                self.put(RAX, home_of(loc, *dst));
            },
            Instr::VTableAddr { dst, row } => {
                let last: usize = cx.vtable_offsets.len() - 1;
                let r: usize = if (*row as usize) < last {
                    *row as usize
                } else {
                    last
                };
                self.abs64_window(RCX, Sym::VtableOff(cx.vtable_offsets[r]));
                self.put(RCX, home_of(loc, *dst));
            },
            Instr::LoadStaticAddr { dst, idx } => {
                let r: usize = if cx.statics == 0 {
                    0
                } else if (*idx as usize) < cx.statics - 1 {
                    *idx as usize
                } else {
                    cx.statics - 1
                };
                self.abs64_window(RCX, Sym::Static(r));
                self.put(RCX, home_of(loc, *dst));
            },
            Instr::LoadStrAddr { dst, off } => {
                self.abs64_window(RSI, Sym::String(*off as usize));
                self.put(RSI, home_of(loc, *dst));
            },
            Instr::LoadField { dst, base, off } => self.load_from(
                home_of(loc, *dst),
                home_of(loc, *base),
                *off,
                false,
            ),
            Instr::LoadByte { dst, base, off } => self.load_from(
                home_of(loc, *dst),
                home_of(loc, *base),
                *off,
                true,
            ),
            Instr::StoreField { base, off, src } => {
                self.get(R10, home_of(loc, *base));
                self.get(R11, home_of(loc, *src));
                self.field_store(*off);
            },
            Instr::MemCpy { dst, src, len } => self.mem_copy(
                home_of(loc, *dst),
                home_of(loc, *src),
                home_of(loc, *len),
            ),
            Instr::MemCmp { dst, a, b, len } => self.mem_equal(
                home_of(loc, *dst),
                home_of(loc, *a),
                home_of(loc, *b),
                home_of(loc, *len),
            ),
            _ => {},
        }
    }

    fn io_instr(&mut self, cx: &Context, loc: &Vec<Loc>, i: &Instr)
        requires
            old(self).ok(),
            homes_ok(loc@),
            in_range(*i, loc@.len() as int),
            encodable(cx@, *i),
            uses_exc(*i) ==> old(self).exc,
            *i is BuildArgv ==> old(self).argv,
            is_io(*i),
        ensures
            emitted(*old(self), *final(self), instr_code(old(self)@, cx@, loc@, *i)),
    {
        match i {
            Instr::BuildArgv { dst } => {
                self.need(Uses { alloc: true, ..self.uses });
                self.build_argv(home_of(loc, *dst));
            },
            Instr::WriteStr { off, len } => self.write_str_syscall(*off, *len, 1),
            Instr::EWriteStr { off, len } => self.write_str_syscall(*off, *len, 2),
            Instr::WriteString { src } => self.write_object(home_of(loc, *src)),
            Instr::WriteInt { src } => self.call_on(
                Uses { int: true, ..self.uses },
                CallTarget::HelperItoa,
                home_of(loc, *src),
            ),
            Instr::EWriteInt { src } => self.call_on(
                Uses { int_err: true, ..self.uses },
                CallTarget::HelperItoaErr,
                home_of(loc, *src),
            ),
            Instr::ScanInt { dst } => {
                self.need(Uses { scan: true, ..self.uses });
                self.call_rel32(CallTarget::HelperScanInt);
                self.put(RAX, home_of(loc, *dst));
            },
            _ => {},
        }
    }

    fn runtime_instr(&mut self, cx: &Context, loc: &Vec<Loc>, i: &Instr)
        requires
            old(self).ok(),
            homes_ok(loc@),
            in_range(*i, loc@.len() as int),
            encodable(cx@, *i),
            uses_exc(*i) ==> old(self).exc,
            *i is BuildArgv ==> old(self).argv,
            is_runtime(*i),
        ensures
            emitted(*old(self), *final(self), instr_code(old(self)@, cx@, loc@, *i)),
    {
        match i {
            Instr::Retain { src } => self.call_on(
                Uses { retain: true, ..self.uses },
                CallTarget::HelperRetain,
                home_of(loc, *src),
            ),
            Instr::Release { src, bytes } => {
                self.need(Uses { release: true, ..self.uses });
                self.get(RAX, home_of(loc, *src));
                self.raw1(0xBE);
                self.imm32(*bytes);
                self.call_rel32(CallTarget::HelperRelease);
            },
            Instr::HandlerEnter { dst } => {
                self.call_rel32(CallTarget::HelperExcEnter);
                self.put(RAX, home_of(loc, *dst));
            },
            Instr::HandlerPop => self.call_rel32(CallTarget::HelperExcPop),
            Instr::LoadExc { dst } => {
                self.call_rel32(CallTarget::HelperExcLoad);
                self.put(RAX, home_of(loc, *dst));
            },
            Instr::ClearInflight => self.call_rel32(CallTarget::HelperExcClear),
            Instr::Suspend { .. } => self.raw1(0x90),
            Instr::CoroutineResume { task, dst } => {
                let t: Loc = home_of(loc, *task);
                match home_of(loc, *dst) {
                    Loc::Reg(r) => self.get(r.id(), t),
                    Loc::Slot(k) => {
                        self.get(RAX, t);
                        self.store_slot(k, RAX);
                    },
                }
            },
            _ => {},
        }
    }

    /// Emits `i`.
    pub fn instr(&mut self, cx: &Context, loc: &Vec<Loc>, i: &Instr)
        requires
            old(self).ok(),
            homes_ok(loc@),
            in_range(*i, loc@.len() as int),
            encodable(cx@, *i),
            uses_exc(*i) ==> old(self).exc,
            *i is BuildArgv ==> old(self).argv,
        ensures
            emitted(*old(self), *final(self), instr_code(old(self)@, cx@, loc@, *i)),
    {
        match i {
            Instr::Const { .. }
            | Instr::FConst { .. }
            | Instr::Mov { .. }
            | Instr::Raw(_)
            | Instr::Bin { .. }
            | Instr::Cmp { .. }
            | Instr::Neg { .. }
            | Instr::FBin { .. }
            | Instr::FCmp { .. }
            | Instr::FNeg { .. } => self.arith_instr(cx, loc, i),
            Instr::CallFn { .. }
            | Instr::CallStatic { .. }
            | Instr::CallVirt { .. }
            | Instr::CallImport { .. }
            | Instr::LoadImport { .. } => self.call_instr(cx, loc, i),
            Instr::Alloc { .. }
            | Instr::AllocDyn { .. }
            | Instr::TaskAlloc { .. }
            | Instr::VTableAddr { .. }
            | Instr::LoadStaticAddr { .. }
            | Instr::LoadStrAddr { .. }
            | Instr::LoadField { .. }
            | Instr::LoadByte { .. }
            | Instr::StoreField { .. }
            | Instr::MemCpy { .. }
            | Instr::MemCmp { .. } => self.memory_instr(cx, loc, i),
            Instr::BuildArgv { .. }
            | Instr::WriteStr { .. }
            | Instr::EWriteStr { .. }
            | Instr::WriteString { .. }
            | Instr::WriteInt { .. }
            | Instr::EWriteInt { .. }
            | Instr::ScanInt { .. } => self.io_instr(cx, loc, i),
            Instr::Retain { .. }
            | Instr::Release { .. }
            | Instr::HandlerEnter { .. }
            | Instr::HandlerPop
            | Instr::LoadExc { .. }
            | Instr::ClearInflight
            | Instr::Suspend { .. }
            | Instr::CoroutineResume { .. } => self.runtime_instr(cx, loc, i),
            Instr::CallByName { .. }
            | Instr::StackAlloc { .. }
            | Instr::Drop { .. }
            | Instr::Exit => {},
        }
    }
}

} // verus!
