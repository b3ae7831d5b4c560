//! What the processor does on the way into a function and out of it.
use crate::bytes::{le32, u64_at, wrap32};
use crate::ir::{IrFunction, Terminator, VReg};
use crate::target::{Reloc, RelocKind, Section, Sym};
use crate::x86::access::agrees_around;
use crate::x86::arithmetic::run_op;
use crate::x86::emit::{modrm, rex, Emit, ARG, MAX_SLOTS, RAX};
use crate::x86::fragments::{
    agrees, in_frame, lemma_front, lemma_get_front, lemma_imm32, lemma_modrm, lemma_plain,
    lemma_put_front,
    lemma_reg_operand, lemma_rex, run_get, run_put, set_home, set_reg, slot_address, value,
};
use crate::x86::function::{
    frame_bytes, lives_in, pop_regs, prologue, push_regs, reserve, savers, store_params,
    term_code, Laid,
};
use crate::x86::instrs::{clamp, home, min, Cx};
use crate::x86::machine::{
    decode, lemma_byte_elsewhere, lemma_here, lemma_onward, lemma_read_elsewhere,
    lemma_read_written, prefixes, reaches, read64, signed32, signed8, wrap64, write64, Alu, Cpu,
    Fpu, Op, Place,
};
use crate::x86::regalloc::{allocation, Loc, Phys, POOL};
use vstd::prelude::*;

verus! {

// ---- pushing and popping

proof fn decode_push(c: Seq<u8>, s: Emit, r: u8)
    requires
        agrees(
            c,
            s.code.len() as int,
            s.raw(seq![rex(true, false, r >= 8), (0x50 + r % 8) as u8]).code,
        ),
        r < 16,
    ensures
        decode(c, s.code.len() as int) == (Op::Push(r as int), s.code.len() as int + 2),
{
    let at = s.code.len() as int;
    let b = seq![rex(true, false, r >= 8), (0x50 + r % 8) as u8];
    lemma_front(c, at, s, b);
    assert(c[at + 0] == b[0] && c[at + 1] == b[1]);
    lemma_rex(c, at, true, false, r >= 8);
    reveal(decode);
}

proof fn decode_pop(c: Seq<u8>, s: Emit, r: u8)
    requires
        agrees(
            c,
            s.code.len() as int,
            s.raw(seq![rex(true, false, r >= 8), (0x58 + r % 8) as u8]).code,
        ),
        r < 16,
    ensures
        decode(c, s.code.len() as int) == (Op::Pop(r as int), s.code.len() as int + 2),
{
    let at = s.code.len() as int;
    let b = seq![rex(true, false, r >= 8), (0x58 + r % 8) as u8];
    lemma_front(c, at, s, b);
    assert(c[at + 0] == b[0] && c[at + 1] == b[1]);
    lemma_rex(c, at, true, false, r >= 8);
    reveal(decode);
}

/// Whether `x` is `m` with the first `n` of `regs` on the stack, each below
/// the one before it.
pub open spec fn saved(m: Cpu, x: Cpu, regs: Seq<Phys>, n: int) -> bool {
    let top = m.regs[4] as int;
    &&& x.regs[4] == top - 8 * n
    &&& forall|q: int| q != 4 ==> #[trigger] x.regs[q] == m.regs[q]
    &&& forall|i: int|
        0 <= i < n ==> read64(x.mem, top - 8 * (i + 1)) == m.regs[(#[trigger] regs[i]).number() as int]
    &&& forall|a: int| a >= top || a < top - 8 * n ==> #[trigger] x.mem[a] == m.mem[a]
}

proof fn lemma_push_front(c: Seq<u8>, from: int, s: Emit, regs: Seq<Phys>, n: int)
    requires
        agrees(c, from, push_regs(s, regs, n).code),
    ensures
        agrees(c, from, s.code),
        s.code.len() <= push_regs(s, regs, n).code.len(),
    decreases n,
{
    if n > 0 {
        let r = regs[n - 1].number();
        lemma_front(
            c,
            from,
            push_regs(s, regs, n - 1),
            seq![rex(true, false, r >= 8), (0x50 + r % 8) as u8],
        );
        lemma_push_front(c, from, s, regs, n - 1);
    }
}

#[verifier::rlimit(40)]
proof fn run_push_regs(u: Fpu, c: Seq<u8>, s: Emit, regs: Seq<Phys>, n: int, m: Cpu) -> (x: Cpu)
    requires
        0 <= n <= regs.len(),
        agrees(c, s.code.len() as int, push_regs(s, regs, n).code),
        m.ip == s.code.len(),
        m.regs[4] >= 8 * n,
    ensures
        reaches(u, c, m, x),
        x.ip == push_regs(s, regs, n).code.len(),
        saved(m, x, regs, n),
    decreases n,
{
    if n == 0 {
        lemma_here(u, c, m);
        m
    } else {
        let at = m.ip;
        let r = regs[n - 1].number();
        let t = push_regs(s, regs, n - 1);
        let b = seq![rex(true, false, r >= 8), (0x50 + r % 8) as u8];
        lemma_front(c, at, t, b);
        lemma_push_front(c, at, s, regs, n - 1);
        let y = run_push_regs(u, c, s, regs, n - 1, m);
        decode_push(c, t, r);
        let x = run_op(u, c, y, Op::Push(r as int), t.code.len() as int + 2);
        lemma_onward(u, c, m, y, x);
        let top = m.regs[4] as int;
        let sp = top - 8 * n;
        assert(wrap64(y.regs[4] - 8) == sp);
        let v = m.regs[r as int];
        assert(x.mem == write64(y.mem, sp, v));
        assert forall|i: int| 0 <= i < n implies read64(x.mem, top - 8 * (i + 1))
            == m.regs[(#[trigger] regs[i]).number() as int] by {
            if i == n - 1 {
                lemma_read_written(y.mem, sp, v);
            } else {
                lemma_read_elsewhere(y.mem, sp, v, top - 8 * (i + 1));
            }
        }
        assert forall|a: int| a >= top || a < top - 8 * n implies #[trigger] x.mem[a]
            == m.mem[a] by {
            lemma_byte_elsewhere(y.mem, sp, v, a);
            assert(y.mem[a] == m.mem[a]);
        }
        x
    }
}

/// Whether no register occurs twice.
pub open spec fn distinct(regs: Seq<Phys>) -> bool {
    forall|i: int, j: int| 0 <= i < j < regs.len() ==> #[trigger] regs[i] != #[trigger] regs[j]
}

proof fn lemma_pop_front(c: Seq<u8>, from: int, s: Emit, regs: Seq<Phys>, n: int)
    requires
        agrees(c, from, pop_regs(s, regs, n).code),
    ensures
        agrees(c, from, s.code),
        s.code.len() <= pop_regs(s, regs, n).code.len(),
    decreases n,
{
    if n > 0 {
        let r = regs[n - 1].number();
        let b = seq![rex(true, false, r >= 8), (0x58 + r % 8) as u8];
        lemma_pop_front(c, from, s.raw(b), regs, n - 1);
        lemma_front(c, from, s, b);
    }
}

/// Whether `x` is `m` with the first `n` of `regs` taken from the stack, the
/// last of them from its top.
pub open spec fn restored(m: Cpu, x: Cpu, regs: Seq<Phys>, n: int) -> bool {
    let sp = m.regs[4] as int;
    &&& x.regs[4] == sp + 8 * n
    &&& forall|i: int|
        0 <= i < n ==> x.regs[(#[trigger] regs[i]).number() as int] == read64(
            m.mem,
            sp + 8 * (n - 1 - i),
        )
    &&& forall|q: int|
        q != 4 && (forall|i: int| 0 <= i < n ==> (#[trigger] regs[i]).number() != q)
            ==> #[trigger] x.regs[q] == m.regs[q]
    &&& x.mem == m.mem
}

#[verifier::rlimit(40)]
proof fn run_pop_regs(u: Fpu, c: Seq<u8>, s: Emit, regs: Seq<Phys>, n: int, m: Cpu) -> (x: Cpu)
    requires
        0 <= n <= regs.len(),
        agrees(c, s.code.len() as int, pop_regs(s, regs, n).code),
        m.ip == s.code.len(),
        m.regs[4] + 8 * n < 0x1_0000_0000_0000_0000,
        distinct(regs),
    ensures
        reaches(u, c, m, x),
        x.ip == pop_regs(s, regs, n).code.len(),
        restored(m, x, regs, n),
    decreases n,
{
    if n == 0 {
        lemma_here(u, c, m);
        m
    } else {
        let at = m.ip;
        let r = regs[n - 1].number();
        let b = seq![rex(true, false, r >= 8), (0x58 + r % 8) as u8];
        lemma_pop_front(c, at, s.raw(b), regs, n - 1);
        lemma_front(c, at, s, b);
        decode_pop(c, s, r);
        let y = run_op(u, c, m, Op::Pop(r as int), at + 2);
        assert(r != 4);
        let x = run_pop_regs(u, c, s.raw(b), regs, n - 1, y);
        lemma_onward(u, c, m, y, x);
        assert forall|i: int| 0 <= i < n implies x.regs[(#[trigger] regs[i]).number() as int]
            == read64(m.mem, m.regs[4] + 8 * (n - 1 - i)) by {
            if i == n - 1 {
                assert forall|j: int| 0 <= j < n - 1 implies (#[trigger] regs[j]).number() != r by {
                    assert(regs[j] != regs[n - 1]);
                }
            }
        }
        assert forall|q: int|
            q != 4 && (forall|i: int| 0 <= i < n ==> (#[trigger] regs[i]).number() != q) implies
        #[trigger] x.regs[q] == m.regs[q] by {
            assert(regs[n - 1].number() != q);
            assert(y.regs[q] == m.regs[q]);
        }
        x
    }
}

/// Registers are kept for the caller once each.
proof fn lemma_savers(loc: Seq<Loc>, n: nat)
    requires
        n <= 5,
    ensures
        distinct(savers(loc, n)),
        savers(loc, n).len() <= n,
        forall|i: int|
            0 <= i < savers(loc, n).len() ==> exists|k: int|
                0 <= k < n && POOL@[k] == #[trigger] savers(loc, n)[i],
    decreases n,
{
    if n > 0 {
        let before = savers(loc, (n - 1) as nat);
        lemma_savers(loc, (n - 1) as nat);
        let now = savers(loc, n);
        assert forall|i: int| 0 <= i < now.len() implies exists|k: int|
            0 <= k < n && POOL@[k] == #[trigger] now[i] by {
            if i < before.len() {
                let k = choose|k: int| 0 <= k < n - 1 && POOL@[k] == #[trigger] before[i];
                assert(POOL@[k] == now[i]);
            } else {
                assert(POOL@[n - 1] == now[i]);
            }
        }
        assert forall|i: int, j: int| 0 <= i < j < now.len() implies #[trigger] now[i]
            != #[trigger] now[j] by {
            if j < before.len() {
                assert(before[i] != before[j]);
            } else {
                let k = choose|k: int| 0 <= k < n - 1 && POOL@[k] == #[trigger] before[i];
                lemma_pool(k, n - 1);
            }
        }
    }
}

proof fn lemma_pool(i: int, j: int)
    requires
        0 <= i < j < 5,
    ensures
        POOL@[i] != POOL@[j],
{
}

// ---- the way in

proof fn decode_reserve_small(c: Seq<u8>, s: Emit, n: int)
    requires
        0 < n <= 120,
        agrees(c, s.code.len() as int, s.raw(seq![0x48, 0x83, 0xEC, n as u8]).code),
    ensures
        decode(c, s.code.len() as int) == (
            Op::Arith {
                f: Alu::Minus,
                wide: true,
                keep: true,
                to: Place::Reg(4),
                from: Place::Imm(n as u64),
            },
            s.code.len() as int + 4,
        ),
{
    let at = s.code.len() as int;
    let b = seq![0x48u8, 0x83, 0xEC, n as u8];
    lemma_front(c, at, s, b);
    assert(c[at + 0] == b[0] && c[at + 1] == b[1] && c[at + 2] == b[2] && c[at + 3] == b[3]);
    assert(rex(true, false, false) == 0x48 && modrm(3, 5, 4) == 0xEC);
    lemma_rex(c, at, true, false, false);
    lemma_reg_operand(c, prefixes(c, at), at + 2, 5, 4);
    assert(wrap64(signed8(n as u8)) == n as u64);
    reveal(decode);
}

proof fn decode_reserve_large(c: Seq<u8>, s: Emit, n: int)
    requires
        120 < n < 0x8000_0000,
        agrees(c, s.code.len() as int, s.raw(seq![0x48, 0x81, 0xEC]).imm32(wrap32(n)).code),
    ensures
        decode(c, s.code.len() as int) == (
            Op::Arith {
                f: Alu::Minus,
                wide: true,
                keep: true,
                to: Place::Reg(4),
                from: Place::Imm(n as u64),
            },
            s.code.len() as int + 7,
        ),
{
    let at = s.code.len() as int;
    let b = seq![0x48u8, 0x81, 0xEC];
    lemma_front(c, at, s.raw(b), le32(wrap32(n)));
    lemma_front(c, at, s, b);
    assert(c[at + 0] == b[0] && c[at + 1] == b[1] && c[at + 2] == b[2]);
    assert(rex(true, false, false) == 0x48 && modrm(3, 5, 4) == 0xEC);
    lemma_rex(c, at, true, false, false);
    lemma_reg_operand(c, prefixes(c, at), at + 2, 5, 4);
    lemma_imm32(c, s.raw(b), wrap32(n));
    assert(wrap64(signed32(wrap32(n))) == n as u64);
    reveal(decode);
}

proof fn lemma_reserve_front(c: Seq<u8>, from: int, s: Emit, n: int)
    requires
        agrees(c, from, reserve(s, n).code),
    ensures
        agrees(c, from, s.code),
        s.code.len() <= reserve(s, n).code.len(),
{
    if n == 0 {
    } else if n <= 120 {
        lemma_front(c, from, s, seq![0x48, 0x83, 0xEC, n as u8]);
    } else {
        lemma_front(c, from, s.raw(seq![0x48, 0x81, 0xEC]), le32(wrap32(n)));
        lemma_front(c, from, s, seq![0x48, 0x81, 0xEC]);
    }
}

proof fn run_reserve(u: Fpu, c: Seq<u8>, s: Emit, n: int, m: Cpu) -> (x: Cpu)
    requires
        0 <= n < 0x8000_0000,
        agrees(c, s.code.len() as int, reserve(s, n).code),
        m.ip == s.code.len(),
        m.regs[4] >= n,
    ensures
        reaches(u, c, m, x),
        x.ip == reserve(s, n).code.len(),
        x.regs[4] == m.regs[4] - n,
        forall|q: int| q != 4 ==> #[trigger] x.regs[q] == m.regs[q],
        x.mem == m.mem,
{
    if n == 0 {
        lemma_here(u, c, m);
        m
    } else {
        if n <= 120 {
            decode_reserve_small(c, s, n);
        } else {
            decode_reserve_large(c, s, n);
        }
        run_op(
            u,
            c,
            m,
            Op::Arith {
                f: Alu::Minus,
                wide: true,
                keep: true,
                to: Place::Reg(4),
                from: Place::Imm(n as u64),
            },
            reserve(s, n).code.len() as int,
        )
    }
}

proof fn decode_enter(c: Seq<u8>, s: Emit)
    requires
        agrees(c, s.code.len() as int, s.raw(seq![0x55]).raw(seq![0x48, 0x89, 0xE5]).code),
    ensures
        decode(c, s.code.len() as int) == (Op::Push(5), s.code.len() as int + 1),
        decode(c, s.code.len() as int + 1) == (
            Op::Mov { to: Place::Reg(5), from: Place::Reg(4) },
            s.code.len() as int + 4,
        ),
{
    let at = s.code.len() as int;
    let a = seq![0x55u8];
    let b = seq![0x48u8, 0x89, 0xE5];
    lemma_front(c, at, s.raw(a), b);
    lemma_front(c, at, s, a);
    assert(c[at + 0] == a[0]);
    assert(c[at + 1 + 0] == b[0] && c[at + 1 + 1] == b[1] && c[at + 1 + 2] == b[2]);
    lemma_plain(c, at);
    assert(rex(true, false, false) == 0x48 && modrm(3, 4, 5) == 0xE5);
    lemma_rex(c, at + 1, true, false, false);
    lemma_reg_operand(c, prefixes(c, at + 1), at + 3, 4, 5);
    reveal(decode);
}

/// The registers in which the calling convention passes arguments, by number:
/// `rdi`, `rsi`, `rdx`, `rcx`, `r8`, `r9`.
pub open spec fn argument_register(k: int) -> int {
    if k == 0 {
        7
    } else if k == 1 {
        6
    } else if k == 2 {
        2
    } else if k == 3 {
        1
    } else if k == 4 {
        8
    } else {
        9
    }
}

proof fn lemma_argument(k: int)
    requires
        0 <= k < 6,
    ensures
        ARG@[k] == argument_register(k),
{
}

/// A function has as much room below `rbp` as it has slots.
pub open spec fn frame_size(f: IrFunction) -> int {
    frame_bytes(
        allocation(f).spills,
        savers(allocation(f).loc, POOL@.len() as nat).len() as int,
    )
}

/// Whether `x` is the processor behind the entry of a function, but for what
/// it does with parameters, where `m` is the processor before it: the frame
/// pointer of the caller is on top of the new frame, the frame has room for
/// every slot, and below it are the registers that are kept for the caller.
pub open spec fn entered(f: IrFunction, m: Cpu, x: Cpu) -> bool {
    framed(savers(allocation(f).loc, POOL@.len() as nat), frame_size(f), m, x)
}

/// `entered`, of the registers that are kept and the size of the frame.
pub open spec fn framed(regs: Seq<Phys>, size: int, m: Cpu, x: Cpu) -> bool {
    let top = m.regs[4] - 8;
    let n = regs.len() as int;
    let low = top - size;
    &&& x.regs[5] == top
    &&& x.regs[4] == low - 8 * n
    &&& read64(x.mem, top) == m.regs[5]
    &&& forall|i: int|
        0 <= i < n ==> read64(x.mem, low - 8 * (i + 1)) == m.regs[(#[trigger] regs[i]).number() as int]
    &&& forall|a: int| a >= m.regs[4] || a < low - 8 * n ==> #[trigger] x.mem[a] == m.mem[a]
}

/// A store into a slot of the frame leaves what was saved around it alone.
proof fn lemma_entered(f: IrFunction, m: Cpu, x: Cpu, y: Cpu, l: Loc, v: u64)
    requires
        entered(f, m, x),
        set_home(x, y, l, v),
        l matches Loc::Slot(k) ==> k < allocation(f).spills,
    ensures
        entered(f, m, y),
{
    if let Loc::Slot(k) = l {
        let top = m.regs[4] - 8;
        let regs = savers(allocation(f).loc, POOL@.len() as nat);
        let n = regs.len() as int;
        let low = top - frame_size(f);
        let a = slot_address(x, k);
        assert(frame_size(f) >= 8 * allocation(f).spills);
        assert(low <= a && a + 8 <= top);
        lemma_read_elsewhere(x.mem, a, v, top);
        assert forall|i: int| 0 <= i < n implies read64(y.mem, low - 8 * (i + 1))
            == m.regs[(#[trigger] regs[i]).number() as int] by {
            lemma_read_elsewhere(x.mem, a, v, low - 8 * (i + 1));
        }
        assert forall|b: int| b >= m.regs[4] || b < low - 8 * n implies #[trigger] y.mem[b]
            == m.mem[b] by {
            lemma_byte_elsewhere(x.mem, a, v, b);
        }
    } else if let Loc::Reg(r) = l {
        assert(r.number() != 4 && r.number() != 5);
    }
}

proof fn lemma_params_front(c: Seq<u8>, from: int, s: Emit, loc: Seq<Loc>, first: int, n: int)
    requires
        agrees(c, from, store_params(s, loc, first, n).code),
    ensures
        agrees(c, from, s.code),
        s.code.len() <= store_params(s, loc, first, n).code.len(),
    decreases n,
{
    if n > 0 {
        lemma_put_front(
            c,
            from,
            store_params(s, loc, first, n - 1),
            ARG@[min(first + n - 1, 5)],
            loc[clamp(n, loc.len() as int)],
        );
        lemma_params_front(c, from, s, loc, first, n - 1);
    }
}

/// Whether no later value shares the home of value `k`.
pub open spec fn alone(loc: Seq<Loc>, k: int) -> bool {
    forall|j: int| k < j < loc.len() ==> #[trigger] loc[j] != loc[k]
}

/// Whether the first `n` homes behind the receiver's hold what came in the
/// argument registers from `first` on.
pub open spec fn placed(m: Cpu, x: Cpu, loc: Seq<Loc>, first: int, n: int) -> bool {
    forall|k: int|
        1 <= k <= n < loc.len() && alone(loc, k)
            && first + k <= 6 ==> value(x, #[trigger] loc[k]) == m.regs[argument_register(
            first + k - 1,
        )]
}

/// Whether the argument registers are as they were.
spec fn untouched(m: Cpu, x: Cpu) -> bool {
    &&& x.regs[7] == m.regs[7]
    &&& x.regs[6] == m.regs[6]
    &&& x.regs[2] == m.regs[2]
    &&& x.regs[1] == m.regs[1]
    &&& x.regs[8] == m.regs[8]
    &&& x.regs[9] == m.regs[9]
}

/// Whether every home of `f` lies in its frame.
pub open spec fn homes_within(f: IrFunction) -> bool {
    &&& allocation(f).loc.len() > 0
    &&& 0 <= allocation(f).spills <= MAX_SLOTS
    &&& forall|v: int|
        0 <= v < allocation(f).loc.len() ==> (#[trigger] allocation(f).loc[v] matches Loc::Slot(k)
            ==> k < allocation(f).spills)
}

proof fn lemma_within(f: IrFunction, m: Cpu, x: Cpu, l: Loc)
    requires
        entered(f, m, x),
        l matches Loc::Slot(k) ==> k < allocation(f).spills,
        allocation(f).spills <= MAX_SLOTS,
        m.regs[4] >= 8 + frame_size(f),
    ensures
        in_frame(x, l),
{
    assert(frame_size(f) >= 8 * allocation(f).spills);
}

/// A write into one home leaves the others.
proof fn lemma_other_home(x: Cpu, y: Cpu, l: Loc, v: u64, o: Loc)
    requires
        set_home(x, y, l, v),
    ensures
        value(y, l) == v,
        o != l ==> value(y, o) == value(x, o),
{
    match l {
        Loc::Reg(r) => {
            assert(r.number() != 5);
            if let Loc::Reg(q) = o {
                if q != r {
                    assert(q.number() != r.number());
                }
            }
        },
        Loc::Slot(k) => {
            lemma_read_written(x.mem, slot_address(x, k), v);
            if let Loc::Slot(j) = o {
                if j != k {
                    lemma_read_elsewhere(x.mem, slot_address(x, k), v, slot_address(x, j));
                }
            }
        },
    }
}

#[verifier::rlimit(40)]
proof fn run_params(
    u: Fpu,
    c: Seq<u8>,
    s: Emit,
    f: IrFunction,
    first: int,
    n: int,
    m: Cpu,
    x: Cpu,
) -> (y: Cpu)
    requires
        0 <= n,
        0 <= first <= 1,
        agrees(c, s.code.len() as int, store_params(s, allocation(f).loc, first, n).code),
        x.ip == s.code.len(),
        entered(f, m, x),
        untouched(m, x),
        homes_within(f),
        m.regs[4] >= 8 + frame_size(f),
    ensures
        reaches(u, c, x, y),
        y.ip == store_params(s, allocation(f).loc, first, n).code.len(),
        entered(f, m, y),
        untouched(m, y),
        placed(m, y, allocation(f).loc, first, n),
        alone(allocation(f).loc, 0) && allocation(f).loc.len() > n ==> value(y, allocation(f).loc[0]) == value(
            x,
            allocation(f).loc[0],
        ),
    decreases n,
{
    let loc = allocation(f).loc;
    if n == 0 {
        lemma_here(u, c, x);
        x
    } else {
        let at = x.ip;
        let t = store_params(s, loc, first, n - 1);
        let l = loc[clamp(n, loc.len() as int)];
        let r = ARG@[min(first + n - 1, 5)];
        lemma_argument(min(first + n - 1, 5));
        lemma_put_front(c, at, t, r, l);
        lemma_params_front(c, at, s, loc, first, n - 1);
        let w = run_params(u, c, s, f, first, n - 1, m, x);
        lemma_within(f, m, w, l);
        let y = run_put(u, c, t, r, l, w);
        lemma_onward(u, c, x, w, y);
        let v = w.regs[r as int];
        lemma_entered(f, m, w, y, l, v);
        lemma_other_home(w, y, l, v, loc[0]);
        assert forall|k: int|
            1 <= k <= n < loc.len() && alone(loc, k)
                && first + k <= 6 implies value(y, #[trigger] loc[k]) == m.regs[argument_register(
            first + k - 1,
        )] by {
            lemma_other_home(w, y, l, v, loc[k]);
            if k < n {
                assert(loc[n] != loc[k]);
            }
        }
        y
    }
}

/// What is emitted before the frame is set up: the process entry keeps its
/// stack pointer, where that is asked for.
pub open spec fn before_frame(s: Emit, cx: Cx, f: IrFunction) -> Emit {
    if f.name@ == "@start"@ && cx.uses_argv {
        s.window(RAX, Sym::ArgvRsp).raw(seq![0x48, 0x89, 0x20])
    } else {
        s
    }
}

/// The process entry stores the stack pointer that it finds where its window
/// points, when the code runs; and the window is recorded as one to be filled
/// with the address of the slot for it.
#[verifier::spinoff_prover]
#[verifier::rlimit(40)]
pub proof fn start_keeps_its_stack_pointer(
    u: Fpu,
    c: Seq<u8>,
    s: Emit,
    cx: Cx,
    f: IrFunction,
    m: Cpu,
) -> (x: Cpu)
    requires
        f.name@ == "@start"@,
        cx.uses_argv,
        agrees_around(
            c,
            s.code.len() as int,
            before_frame(s, cx, f).code,
            s.code.len() as int + 2,
            8,
        ),
        m.ip == s.code.len(),
    ensures
        reaches(u, c, m, x),
        x.ip == before_frame(s, cx, f).code.len(),
        x.mem == write64(m.mem, u64_at(c, s.code.len() as int + 2) as int, m.regs[4]),
        forall|q: int| q != 0 ==> #[trigger] x.regs[q] == m.regs[q],
        before_frame(s, cx, f).relocs == s.relocs.push(
            Reloc {
                kind: RelocKind::Abs64,
                section: Section::Code,
                site: (s.code.len() + 2) as usize,
                sym: Sym::ArgvRsp,
            },
        ),
{
    let at = m.ip;
    let w = s.window(RAX, Sym::ArgvRsp);
    let b = seq![0x48u8, 0x89, 0x20];
    let e = w.raw(b).code;
    assert(w.code.len() == at + 10);
    assert(w.code[at] == 0x48 && w.code[at + 1] == 0xB8);
    assert(e[at] == w.code[at] && e[at + 1] == w.code[at + 1]);
    assert(e[at + 10] == b[0] && e[at + 11] == b[1] && e[at + 12] == b[2]);
    assert(c[at] == e[at] && c[at + 1] == e[at + 1]);
    assert(c[at + 10] == e[at + 10] && c[at + 11] == e[at + 11] && c[at + 12] == e[at + 12]);
    decode_window(c, at);
    let y = run_op(
        u,
        c,
        m,
        Op::Mov { to: Place::Reg(0), from: Place::Imm(u64_at(c, at + 2)) },
        at + 10,
    );
    decode_keep(c, at + 10);
    let x = run_op(
        u,
        c,
        y,
        Op::Mov {
            to: Place::Mem { base: 0, index: -1, scale: 1, disp: 0 },
            from: Place::Reg(4),
        },
        at + 13,
    );
    lemma_onward(u, c, m, y, x);
    x
}

proof fn decode_window(c: Seq<u8>, at: int)
    requires
        c[at] == 0x48 && c[at + 1] == 0xB8,
    ensures
        decode(c, at) == (
            Op::Mov { to: Place::Reg(0), from: Place::Imm(u64_at(c, at + 2)) },
            at + 10,
        ),
{
    reveal(decode);
}

proof fn decode_keep(c: Seq<u8>, at: int)
    requires
        c[at] == 0x48 && c[at + 1] == 0x89 && c[at + 2] == 0x20,
    ensures
        decode(c, at) == (
            Op::Mov {
                to: Place::Mem { base: 0, index: -1, scale: 1, disp: 0 },
                from: Place::Reg(4),
            },
            at + 3,
        ),
{
    assert(rex(true, false, false) == 0x48 && modrm(0, 4, 0) == 0x20);
    lemma_rex(c, at, true, false, false);
    lemma_modrm(0, 4, 0);
    reveal(decode);
}

/// The entry of a function from where its frame is set up.
pub open spec fn prologue_rest(k: Emit, f: IrFunction) -> Emit {
    let loc = allocation(f).loc;
    let regs = savers(loc, POOL@.len() as nat);
    let framed = reserve(k.raw(seq![0x55]).raw(seq![0x48, 0x89, 0xE5]), frame_size(f));
    let kept = push_regs(framed, regs, regs.len() as int);
    if f.has_receiver() {
        store_params(kept.put(ARG@[0], loc[0]), loc, 1, f.arity as int)
    } else {
        store_params(kept, loc, 0, f.arity as int)
    }
}

/// The processor on the way into a function: the old frame pointer is saved
/// and the new one points to it, the frame has room for all slots, the
/// registers that the function uses are saved below it, and nothing above the
/// return address changes. The receiver and the parameters are in their homes,
/// as far as they come in registers and have homes of their own. The stack
/// keeps its alignment.
#[verifier::rlimit(40)]
pub proof fn entry_builds_a_frame(
    u: Fpu,
    c: Seq<u8>,
    s: Emit,
    cx: Cx,
    f: IrFunction,
    m: Cpu,
) -> (x: Cpu)
    requires
        agrees(c, before_frame(s, cx, f).code.len() as int, prologue(s, cx, f).code),
        m.ip == before_frame(s, cx, f).code.len(),
        homes_within(f),
        frame_size(f) < 0x8000_0000,
        m.regs[4] >= 8 + frame_size(f) + 40,
    ensures
        reaches(u, c, m, x),
        x.ip == prologue(s, cx, f).code.len(),
        entered(f, m, x),
        (m.regs[4] - x.regs[4]) % 16 == 0,
        f.has_receiver() ==> {
            let loc = allocation(f).loc;
            &&& placed(m, x, loc, 1, f.arity as int)
            &&& alone(loc, 0) && f.arity < loc.len() ==> value(x, loc[0]) == m.regs[7]
        },
        !f.has_receiver() ==> placed(m, x, allocation(f).loc, 0, f.arity as int),
{
    let at = m.ip;
    assert(prologue(s, cx, f) == prologue_rest(before_frame(s, cx, f), f));
    let s = before_frame(s, cx, f);
    let loc = allocation(f).loc;
    let regs = savers(loc, POOL@.len() as nat);
    let n = regs.len() as int;
    lemma_savers(loc, 5);
    let bare = s.raw(seq![0x55]).raw(seq![0x48, 0x89, 0xE5]);
    let framed = reserve(bare, frame_size(f));
    let kept = push_regs(framed, regs, n);
    if f.has_receiver() {
        lemma_params_front(c, at, kept.put(ARG@[0], loc[0]), loc, 1, f.arity as int);
        lemma_put_front(c, at, kept, ARG@[0], loc[0]);
    } else {
        lemma_params_front(c, at, kept, loc, 0, f.arity as int);
    }
    lemma_push_front(c, at, framed, regs, n);
    lemma_reserve_front(c, at, bare, frame_size(f));
    lemma_parity(allocation(f).spills, n);
    let y = run_frame(u, c, s, regs, frame_size(f), m);
    let x = if f.has_receiver() {
        lemma_argument(0);
        lemma_within(f, m, y, loc[0]);
        let z = run_put(u, c, kept, ARG@[0], loc[0], y);
        lemma_onward(u, c, m, y, z);
        lemma_entered(f, m, y, z, loc[0], y.regs[7]);
        lemma_other_home(y, z, loc[0], y.regs[7], loc[0]);
        let x = run_params(u, c, kept.put(ARG@[0], loc[0]), f, 1, f.arity as int, m, z);
        lemma_onward(u, c, m, z, x);
        x
    } else {
        let x = run_params(u, c, kept, f, 0, f.arity as int, m, y);
        lemma_onward(u, c, m, y, x);
        x
    };
    assert(m.regs[4] - x.regs[4] == 8 + frame_size(f) + 8 * n);
    x
}

#[verifier::spinoff_prover]
#[verifier::rlimit(40)]
proof fn lemma_parity(spills: int, n: int)
    requires
        0 <= spills,
        0 <= n,
    ensures
        (8 + frame_bytes(spills, n) + 8 * n) % 16 == 0,
        frame_bytes(spills, n) >= 8 * spills,
{
    let q = (spills * 8 + 15) / 16;
    assert(16 * q >= spills * 8);
    let h = n / 2;
    assert(n == 2 * h || n == 2 * h + 1);
    assert(8 + frame_bytes(spills, n) + 8 * n == 16 * (q + h + 1));
}

/// The code that sets up a frame and keeps registers.
spec fn framing(s: Emit, regs: Seq<Phys>, size: int) -> Emit {
    push_regs(
        reserve(s.raw(seq![0x55]).raw(seq![0x48, 0x89, 0xE5]), size),
        regs,
        regs.len() as int,
    )
}

#[verifier::spinoff_prover]
#[verifier::rlimit(40)]
proof fn run_frame(u: Fpu, c: Seq<u8>, s: Emit, regs: Seq<Phys>, size: int, m: Cpu) -> (x: Cpu)
    requires
        agrees(c, s.code.len() as int, framing(s, regs, size).code),
        m.ip == s.code.len(),
        0 <= size < 0x8000_0000,
        m.regs[4] >= 8 + size + 8 * regs.len(),
    ensures
        x.ip == framing(s, regs, size).code.len(),
        reaches(u, c, m, x),
        framed(regs, size, m, x),
        untouched(m, x),
{
    let at = m.ip;
    let n = regs.len() as int;
    let bare = s.raw(seq![0x55]).raw(seq![0x48, 0x89, 0xE5]);
    let room = reserve(bare, size);
    lemma_push_front(c, at, room, regs, n);
    lemma_reserve_front(c, at, bare, size);
    let b = run_enter(u, c, s, m);
    let top = m.regs[4] - 8;
    let d = run_reserve(u, c, bare, size, b);
    lemma_onward(u, c, m, b, d);
    let x = run_push_regs(u, c, room, regs, n, d);
    lemma_onward(u, c, m, d, x);
    let low = top - size;
    lemma_word(d.mem, x.mem, top);
    assert forall|i: int| 0 <= i < n implies read64(x.mem, low - 8 * (i + 1))
        == m.regs[(#[trigger] regs[i]).number() as int] by {
        assert(regs[i].number() != 4 && regs[i].number() != 5);
    }
    assert forall|q: int| q >= m.regs[4] || q < low - 8 * n implies #[trigger] x.mem[q]
        == m.mem[q] by {
        assert(b.mem[q] == m.mem[q]);
        assert(d.mem[q] == m.mem[q]);
    }
    x
}

#[verifier::spinoff_prover]
#[verifier::rlimit(40)]
proof fn run_enter(u: Fpu, c: Seq<u8>, s: Emit, m: Cpu) -> (b: Cpu)
    requires
        agrees(c, s.code.len() as int, s.raw(seq![0x55]).raw(seq![0x48, 0x89, 0xE5]).code),
        m.ip == s.code.len(),
        m.regs[4] >= 8,
    ensures
        reaches(u, c, m, b),
        b.ip == s.raw(seq![0x55]).raw(seq![0x48, 0x89, 0xE5]).code.len(),
        b.regs[4] == m.regs[4] - 8,
        b.regs[5] == m.regs[4] - 8,
        forall|q: int| q != 4 && q != 5 ==> #[trigger] b.regs[q] == m.regs[q],
        read64(b.mem, m.regs[4] - 8) == m.regs[5],
        forall|a: int| a >= m.regs[4] || a < m.regs[4] - 8 ==> #[trigger] b.mem[a] == m.mem[a],
{
    let at = m.ip;
    decode_enter(c, s);
    assert(s.raw(seq![0x55]).raw(seq![0x48, 0x89, 0xE5]).code.len() == at + 4);
    let a = run_keep(u, c, m);
    let b = run_point(u, c, a);
    lemma_onward(u, c, m, a, b);
    b
}

/// `push rbp`
proof fn run_keep(u: Fpu, c: Seq<u8>, m: Cpu) -> (x: Cpu)
    requires
        decode(c, m.ip) == (Op::Push(5), m.ip + 1),
        m.regs[4] >= 8,
    ensures
        reaches(u, c, m, x),
        x.ip == m.ip + 1,
        x.regs == m.regs.insert(4, (m.regs[4] - 8) as u64),
        read64(x.mem, m.regs[4] - 8) == m.regs[5],
        forall|a: int| a >= m.regs[4] || a < m.regs[4] - 8 ==> #[trigger] x.mem[a] == m.mem[a],
{
    let x = run_op(u, c, m, Op::Push(5), m.ip + 1);
    let top = m.regs[4] - 8;
    assert(wrap64(m.regs[4] - 8) == top);
    assert(x.mem == write64(m.mem, top, m.regs[5]));
    lemma_read_written(m.mem, top, m.regs[5]);
    assert forall|q: int| q >= m.regs[4] || q < top implies #[trigger] x.mem[q] == m.mem[q] by {
        lemma_byte_elsewhere(m.mem, top, m.regs[5], q);
    }
    x
}

/// `mov rbp, rsp`
proof fn run_point(u: Fpu, c: Seq<u8>, m: Cpu) -> (x: Cpu)
    requires
        decode(c, m.ip) == (Op::Mov { to: Place::Reg(5), from: Place::Reg(4) }, m.ip + 3),
    ensures
        reaches(u, c, m, x),
        x.ip == m.ip + 3,
        x.regs == m.regs.insert(5, m.regs[4]),
        x.mem == m.mem,
{
    run_op(u, c, m, Op::Mov { to: Place::Reg(5), from: Place::Reg(4) }, m.ip + 3)
}

proof fn lemma_word(p: Map<int, u8>, q: Map<int, u8>, a: int)
    requires
        forall|b: int| a <= b < a + 8 ==> #[trigger] q[b] == p[b],
    ensures
        read64(q, a) == read64(p, a),
{
    reveal(read64);
    assert(q[a] == p[a] && q[a + 1] == p[a + 1] && q[a + 2] == p[a + 2] && q[a + 3] == p[a + 3]
        && q[a + 4] == p[a + 4] && q[a + 5] == p[a + 5] && q[a + 6] == p[a + 6] && q[a + 7]
        == p[a + 7]);
}

// ---- the way out

proof fn decode_out(c: Seq<u8>, s: Emit)
    requires
        agrees(c, s.code.len() as int, s.raw(seq![0xC9, 0xC3]).code),
    ensures
        decode(c, s.code.len() as int) == (Op::Leave, s.code.len() as int + 1),
        decode(c, s.code.len() as int + 1) == (Op::Ret, s.code.len() as int + 2),
{
    let at = s.code.len() as int;
    let b = seq![0xC9u8, 0xC3];
    lemma_front(c, at, s, b);
    assert(c[at + 0] == b[0] && c[at + 1] == b[1]);
    lemma_plain(c, at);
    lemma_plain(c, at + 1);
    reveal(decode);
}

proof fn decode_zero(c: Seq<u8>, s: Emit)
    requires
        agrees(c, s.code.len() as int, s.raw(seq![0xB8]).imm32(0).code),
    ensures
        decode(c, s.code.len() as int) == (
            Op::Mov { to: Place::Reg(0), from: Place::Imm(0) },
            s.code.len() as int + 5,
        ),
{
    let at = s.code.len() as int;
    let b = seq![0xB8u8];
    lemma_front(c, at, s.raw(b), le32(0));
    lemma_front(c, at, s, b);
    assert(c[at + 0] == b[0]);
    lemma_plain(c, at);
    lemma_imm32(c, s.raw(b), 0);
    reveal(decode);
}

/// The value that a function hands back at its end: zero where it has none.
pub open spec fn returned(m: Cpu, loc: Seq<Loc>, t: Terminator) -> u64 {
    match t {
        Terminator::Ret(Some(v)) => value(m, home(loc, v)),
        _ => 0,
    }
}

proof fn run_result(u: Fpu, c: Seq<u8>, s: Emit, loc: Seq<Loc>, v: Option<VReg>, m: Cpu) -> (x: Cpu)
    requires
        match v {
            Some(v) => agrees(c, s.code.len() as int, s.get(RAX, home(loc, v)).code) && in_frame(
                m,
                home(loc, v),
            ),
            None => agrees(c, s.code.len() as int, s.raw(seq![0xB8]).imm32(0).code),
        },
        m.ip == s.code.len(),
    ensures
        reaches(u, c, m, x),
        x.ip == match v {
            Some(v) => s.get(RAX, home(loc, v)).code.len(),
            None => s.raw(seq![0xB8]).imm32(0).code.len(),
        },
        set_reg(m, x, 0, returned(m, loc, Terminator::Ret(v))),
{
    match v {
        Some(v) => run_get(u, c, s, RAX, home(loc, v), m),
        None => {
            decode_zero(c, s);
            assert(s.raw(seq![0xB8]).imm32(0).code.len() == s.code.len() + 5);
            run_op(
                u,
                c,
                m,
                Op::Mov { to: Place::Reg(0), from: Place::Imm(0) },
                s.code.len() as int + 5,
            )
        },
    }
}

/// The processor on the way out of a function: its result is in `rax`, the
/// registers on the stack are back in place, the last one saved first, the
/// frame is gone, and control is at the return address above it.
#[verifier::spinoff_prover]
#[verifier::rlimit(40)]
pub proof fn returning_unwinds_the_frame(
    u: Fpu,
    c: Seq<u8>,
    e: Emit,
    f: IrFunction,
    v: Option<VReg>,
    m: Cpu,
) -> (x: Cpu)
    requires
        ({
            let loc = allocation(f).loc;
            agrees(
                c,
                e.code.len() as int,
                term_code(
                    Laid { s: e, starts: Seq::empty(), jumps: Seq::empty() },
                    loc,
                    savers(loc, POOL@.len() as nat),
                    Terminator::Ret(v),
                ).s.code,
            )
        }),
        m.ip == e.code.len(),
        v matches Some(v) ==> in_frame(m, home(allocation(f).loc, v)),
        m.regs[4] + 40 < 0x1_0000_0000_0000_0000,
        m.regs[5] + 16 < 0x1_0000_0000_0000_0000,
    ensures
        reaches(u, c, m, x),
        ({
            let loc = allocation(f).loc;
            let regs = savers(loc, POOL@.len() as nat);
            let n = regs.len() as int;
            &&& x.regs[0] == returned(m, loc, Terminator::Ret(v))
            &&& forall|i: int|
                0 <= i < n ==> x.regs[(#[trigger] regs[i]).number() as int] == read64(
                    m.mem,
                    m.regs[4] + 8 * (n - 1 - i),
                )
            &&& forall|r: Phys|
                !lives_in(loc, r) ==> x.regs[#[trigger] r.number() as int] == m.regs[r.number() as int]
            &&& x.regs[4] == m.regs[5] + 16
            &&& x.regs[5] == read64(m.mem, m.regs[5] as int)
            &&& x.ip == read64(m.mem, m.regs[5] + 8)
            &&& x.mem == m.mem
        }),
{
    let at = m.ip;
    let loc = allocation(f).loc;
    let regs = savers(loc, POOL@.len() as nat);
    let n = regs.len() as int;
    lemma_savers(loc, 5);
    let r = match v {
        Some(v) => e.get(RAX, home(loc, v)),
        None => e.raw(seq![0xB8]).imm32(0),
    };
    lemma_front(c, at, pop_regs(r, regs, n), seq![0xC9, 0xC3]);
    lemma_pop_front(c, at, r, regs, n);
    match v {
        Some(v) => lemma_get_front(c, at, e, RAX, home(loc, v)),
        None => lemma_front(c, at, e.raw(seq![0xB8]), le32(0)),
    }
    let y = run_result(u, c, e, loc, v, m);
    let x = run_out(u, c, r, regs, y);
    lemma_onward(u, c, m, y, x);
    assert forall|q: Phys| !lives_in(loc, q) implies x.regs[#[trigger] q.number() as int]
        == m.regs[q.number() as int] by {
        lemma_not_saved(loc, 5, q);
        assert forall|i: int| 0 <= i < n implies (#[trigger] regs[i]).number() != q.number() by {
            assert(regs[i] != q);
        }
    }
    x
}

/// Pops the registers, and leaves.
#[verifier::spinoff_prover]
#[verifier::rlimit(40)]
proof fn run_out(u: Fpu, c: Seq<u8>, s: Emit, regs: Seq<Phys>, m: Cpu) -> (x: Cpu)
    requires
        agrees(
            c,
            s.code.len() as int,
            pop_regs(s, regs, regs.len() as int).raw(seq![0xC9, 0xC3]).code,
        ),
        m.ip == s.code.len(),
        distinct(regs),
        m.regs[4] + 8 * regs.len() < 0x1_0000_0000_0000_0000,
        m.regs[5] + 16 < 0x1_0000_0000_0000_0000,
    ensures
        reaches(u, c, m, x),
        forall|i: int|
            0 <= i < regs.len() ==> x.regs[(#[trigger] regs[i]).number() as int] == read64(
                m.mem,
                m.regs[4] + 8 * (regs.len() - 1 - i),
            ),
        forall|q: int|
            q != 4 && q != 5 && (forall|i: int|
                0 <= i < regs.len() ==> (#[trigger] regs[i]).number() != q) ==> #[trigger] x.regs[q]
                == m.regs[q],
        x.regs[0] == m.regs[0],
        x.regs[4] == m.regs[5] + 16,
        x.regs[5] == read64(m.mem, m.regs[5] as int),
        x.ip == read64(m.mem, m.regs[5] + 8),
        x.mem == m.mem,
{
    let n = regs.len() as int;
    let p = pop_regs(s, regs, n);
    lemma_front(c, m.ip, p, seq![0xC9, 0xC3]);
    lemma_pop_front(c, m.ip, s, regs, n);
    let z = run_pop_regs(u, c, s, regs, n, m);
    assert forall|i: int| 0 <= i < n implies (#[trigger] regs[i]).number() != 0 && regs[i].number()
        != 4 && regs[i].number() != 5 by {}
    assert(z.regs[5] == m.regs[5] && z.regs[0] == m.regs[0]);
    decode_out(c, p);
    let x = run_leave(u, c, z);
    lemma_onward(u, c, m, z, x);
    x
}

/// `leave`, `ret`
#[verifier::spinoff_prover]
#[verifier::rlimit(40)]
proof fn run_leave(u: Fpu, c: Seq<u8>, m: Cpu) -> (x: Cpu)
    requires
        decode(c, m.ip) == (Op::Leave, m.ip + 1),
        decode(c, m.ip + 1) == (Op::Ret, m.ip + 2),
        m.regs[5] + 16 < 0x1_0000_0000_0000_0000,
    ensures
        reaches(u, c, m, x),
        x.regs == m.regs.insert(4, (m.regs[5] + 16) as u64).insert(
            5,
            read64(m.mem, m.regs[5] as int),
        ),
        x.ip == read64(m.mem, m.regs[5] + 8),
        x.mem == m.mem,
{
    let w = run_unframe(u, c, m);
    let x = run_ret(u, c, w);
    lemma_onward(u, c, m, w, x);
    assert(x.regs =~= m.regs.insert(4, (m.regs[5] + 16) as u64).insert(
        5,
        read64(m.mem, m.regs[5] as int),
    ));
    x
}

/// `leave`
proof fn run_unframe(u: Fpu, c: Seq<u8>, m: Cpu) -> (x: Cpu)
    requires
        decode(c, m.ip) == (Op::Leave, m.ip + 1),
        m.regs[5] + 8 < 0x1_0000_0000_0000_0000,
    ensures
        reaches(u, c, m, x),
        x.ip == m.ip + 1,
        x.regs == m.regs.insert(4, (m.regs[5] + 8) as u64).insert(
            5,
            read64(m.mem, m.regs[5] as int),
        ),
        x.mem == m.mem,
{
    assert(wrap64(m.regs[5] + 8) == m.regs[5] + 8);
    run_op(u, c, m, Op::Leave, m.ip + 1)
}

/// `ret`
proof fn run_ret(u: Fpu, c: Seq<u8>, m: Cpu) -> (x: Cpu)
    requires
        decode(c, m.ip) == (Op::Ret, m.ip + 1),
        m.regs[4] + 8 < 0x1_0000_0000_0000_0000,
    ensures
        reaches(u, c, m, x),
        x.ip == read64(m.mem, m.regs[4] as int),
        x.regs == m.regs.insert(4, (m.regs[4] + 8) as u64),
        x.mem == m.mem,
{
    assert(wrap64(m.regs[4] + 8) == m.regs[4] + 8);
    run_op(u, c, m, Op::Ret, m.ip + 1)
}

proof fn lemma_not_saved(loc: Seq<Loc>, n: nat, r: Phys)
    requires
        n <= 5,
        !lives_in(loc, r),
    ensures
        forall|i: int| 0 <= i < savers(loc, n).len() ==> #[trigger] savers(loc, n)[i] != r,
    decreases n,
{
    if n > 0 {
        lemma_not_saved(loc, (n - 1) as nat, r);
    }
}

/// A function that leaves its frame as its entry built it hands the caller's
/// registers back as they were: those that values lived in, the frame pointer,
/// and the stack pointer above the return address, where control goes.
pub proof fn callers_keep_their_registers(
    u: Fpu,
    c: Seq<u8>,
    e: Emit,
    f: IrFunction,
    v: Option<VReg>,
    m: Cpu,
    y: Cpu,
) -> (x: Cpu)
    requires
        ({
            let loc = allocation(f).loc;
            agrees(
                c,
                e.code.len() as int,
                term_code(
                    Laid { s: e, starts: Seq::empty(), jumps: Seq::empty() },
                    loc,
                    savers(loc, POOL@.len() as nat),
                    Terminator::Ret(v),
                ).s.code,
            )
        }),
        entered(f, m, y),
        y.ip == e.code.len(),
        v matches Some(v) ==> in_frame(y, home(allocation(f).loc, v)),
        0 <= allocation(f).spills,
        8 + frame_size(f) + 40 <= m.regs[4] < 0xFFFF_FFFF_FFFF_FF00,
    ensures
        reaches(u, c, y, x),
        x.regs[0] == returned(y, allocation(f).loc, Terminator::Ret(v)),
        forall|r: Phys|
            lives_in(allocation(f).loc, r) ==> x.regs[#[trigger] r.number() as int]
                == m.regs[r.number() as int],
        forall|r: Phys|
            !lives_in(allocation(f).loc, r) ==> x.regs[#[trigger] r.number() as int]
                == y.regs[r.number() as int],
        x.regs[5] == m.regs[5],
        x.regs[4] == m.regs[4] + 8,
        x.ip == read64(m.mem, m.regs[4] as int),
{
    let loc = allocation(f).loc;
    let regs = savers(loc, POOL@.len() as nat);
    let n = regs.len() as int;
    lemma_savers(loc, 5);
    lemma_parity(allocation(f).spills, n);
    let x = returning_unwinds_the_frame(u, c, e, f, v, y);
    lemma_word(m.mem, y.mem, m.regs[4] as int);
    assert forall|r: Phys| lives_in(loc, r) implies x.regs[#[trigger] r.number() as int]
        == m.regs[r.number() as int] by {
        let i = lemma_is_saved(loc, 5, r);
        assert(regs[i] == r);
        let low = m.regs[4] - 8 - frame_size(f);
        assert(y.regs[4] + 8 * (n - 1 - i) == low - 8 * (i + 1));
    }
    x
}

proof fn lemma_is_saved(loc: Seq<Loc>, n: nat, r: Phys) -> (i: int)
    requires
        n <= 5,
        lives_in(loc, r),
        exists|k: int| 0 <= k < n && #[trigger] POOL@[k] == r,
    ensures
        0 <= i < savers(loc, n).len(),
        savers(loc, n)[i] == r,
    decreases n,
{
    if POOL@[n - 1] == r {
        savers(loc, n).len() - 1
    } else {
        lemma_is_saved(loc, (n - 1) as nat, r)
    }
}

} // verus!
