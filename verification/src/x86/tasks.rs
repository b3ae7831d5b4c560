//! What the processor does with the code of coroutines.
use crate::bytes::le32;
use crate::ir::Instr;
use crate::x86::access::agrees_around;
use crate::x86::arithmetic::{lemma_becomes_reg, run_op};
use crate::x86::calls::lemma_before_gap;
use crate::x86::emit::{CallTarget, Emit, Uses, RAX};
use crate::x86::fragments::{
    agrees, becomes, in_frame, lemma_becomes, lemma_front, lemma_get_front, lemma_imm32,
    lemma_plain, lemma_put_front, lemma_quiet, quiet, run_get, run_put, value,
};
use crate::x86::instrs::{home, instr_code, Cx};
use crate::x86::machine::{decode, lemma_onward, reaches, Cpu, Fpu, Op, Place};
use crate::x86::regalloc::Loc;
use vstd::prelude::*;

verus! {

/// A suspension has no effect of its own.
pub proof fn suspensions_pass(
    u: Fpu,
    c: Seq<u8>,
    s: Emit,
    cx: Cx,
    loc: Seq<Loc>,
    i: Instr,
    m: Cpu,
) -> (x: Cpu)
    requires
        i is Suspend,
        agrees(c, s.code.len() as int, instr_code(s, cx, loc, i).code),
        m.ip == s.code.len(),
    ensures
        reaches(u, c, m, x),
        x == (Cpu { ip: instr_code(s, cx, loc, i).code.len() as int, ..m }),
{
    let at = m.ip;
    let b = seq![0x90u8];
    lemma_front(c, at, s, b);
    assert(c[at + 0] == b[0]);
    lemma_plain(c, at);
    assert(decode(c, at) == (Op::Nothing, at + 1)) by {
        reveal(decode);
    }
    run_op(u, c, m, Op::Nothing, at + 1)
}

/// Resuming a task leaves the task itself in the destination.
#[verifier::rlimit(40)]
pub proof fn resumptions_hand_on_the_task(
    u: Fpu,
    c: Seq<u8>,
    s: Emit,
    cx: Cx,
    loc: Seq<Loc>,
    i: Instr,
    m: Cpu,
) -> (x: Cpu)
    requires
        i is CoroutineResume,
        agrees(c, s.code.len() as int, instr_code(s, cx, loc, i).code),
        m.ip == s.code.len(),
        in_frame(m, home(loc, i->CoroutineResume_dst)),
        in_frame(m, home(loc, i->CoroutineResume_task)),
    ensures
        reaches(u, c, m, x),
        x.ip == instr_code(s, cx, loc, i).code.len(),
        becomes(
            m,
            x,
            home(loc, i->CoroutineResume_dst),
            value(m, home(loc, i->CoroutineResume_task)),
        ),
{
    let at = m.ip;
    let d = home(loc, i->CoroutineResume_dst);
    let t = home(loc, i->CoroutineResume_task);
    match d {
        Loc::Reg(r) => {
            let x = run_get(u, c, s, r.number(), t, m);
            lemma_becomes_reg(m, x, r, value(m, t));
            x
        },
        Loc::Slot(_) => {
            let g = s.get(RAX, t);
            lemma_put_front(c, at, g, RAX, d);
            lemma_get_front(c, at, s, RAX, t);
            let y = run_get(u, c, s, RAX, t, m);
            lemma_quiet(m, y, d);
            let x = run_put(u, c, g, RAX, d, y);
            lemma_onward(u, c, m, y, x);
            lemma_becomes(m, y, x, d, value(m, t));
            x
        },
    }
}

/// Memory with the number 1, of 32 bits, at `a`.
pub open spec fn with_one(mem: Map<int, u8>, a: int) -> Map<int, u8> {
    mem.insert(a, 1).insert(a + 1, 0).insert(a + 2, 0).insert(a + 3, 0)
}

proof fn decode_one(c: Seq<u8>, s: Emit)
    requires
        agrees(c, s.code.len() as int, s.raw(seq![0xC7, 0x00]).imm32(1).code),
    ensures
        decode(c, s.code.len() as int) == (
            Op::StoreWord { to: Place::Mem { base: 0, index: -1, scale: 1, disp: 0 }, v: 1 },
            s.code.len() as int + 6,
        ),
        s.raw(seq![0xC7, 0x00]).imm32(1).code.len() == s.code.len() + 6,
{
    let at = s.code.len() as int;
    let b = seq![0xC7u8, 0x00];
    lemma_front(c, at, s.raw(b), le32(1));
    lemma_front(c, at, s, b);
    assert(c[at + 0] == b[0] && c[at + 1] == b[1]);
    lemma_plain(c, at);
    lemma_imm32(c, s.raw(b), 1);
    reveal(decode);
}

proof fn decode_size(c: Seq<u8>, s: Emit, v: u32)
    requires
        agrees(c, s.code.len() as int, s.raw(seq![0xBE]).imm32(v).code),
    ensures
        decode(c, s.code.len() as int) == (
            Op::Mov { to: Place::Reg(6), from: Place::Imm(v as u64) },
            s.code.len() as int + 5,
        ),
{
    let at = s.code.len() as int;
    let b = seq![0xBEu8];
    lemma_front(c, at, s.raw(b), le32(v));
    lemma_front(c, at, s, b);
    assert(c[at + 0] == b[0]);
    lemma_plain(c, at);
    lemma_imm32(c, s.raw(b), v);
    reveal(decode);
}

/// Behind the allocation of a task: its first word is 1, and the task goes
/// from `rax` into its home.
#[verifier::rlimit(40)]
proof fn run_task(u: Fpu, c: Seq<u8>, k: Emit, d: Loc, z: Cpu) -> (x: Cpu)
    requires
        agrees(
            c,
            k.code.len() as int,
            k.raw(seq![0xC7, 0x00]).imm32(1).put(RAX, d).code,
        ),
        z.ip == k.code.len(),
        in_frame(z, d),
    ensures
        reaches(u, c, z, x),
        x.ip == k.raw(seq![0xC7, 0x00]).imm32(1).put(RAX, d).code.len(),
        becomes(
            Cpu { mem: with_one(z.mem, z.regs[0] as int), ..z },
            x,
            d,
            z.regs[0],
        ),
{
    let t = k.raw(seq![0xC7, 0x00]).imm32(1);
    lemma_put_front(c, z.ip, t, RAX, d);
    decode_one(c, k);
    let w = Cpu { mem: with_one(z.mem, z.regs[0] as int), ..z };
    assert(le32(1) =~= seq![1u8, 0, 0, 0]);
    let y = run_op(
        u,
        c,
        z,
        Op::StoreWord { to: Place::Mem { base: 0, index: -1, scale: 1, disp: 0 }, v: 1 },
        z.ip + 6,
    );
    let x = run_put(u, c, t, RAX, d, y);
    lemma_onward(u, c, z, y, x);
    lemma_becomes(w, y, x, d, z.regs[0]);
    x
}

/// Whether from `z`, the processor when the allocator comes back, the code up
/// to `end` marks the task in `rax` and puts it into `d`.
pub open spec fn task_comes_home(u: Fpu, c: Seq<u8>, z: Cpu, end: int, d: Loc) -> bool {
    exists|x: Cpu| #[trigger]
        reaches(u, c, z, x) && x.ip == end && becomes(
            Cpu { mem: with_one(z.mem, z.regs[0] as int), ..z },
            x,
            d,
            z.regs[0],
        )
}

/// Making a task leaves for the allocator with its size in `rsi`. When the
/// allocator comes back, the first word of the task is set to 1, and the task
/// goes into the destination.
#[verifier::spinoff_prover]
#[verifier::rlimit(40)]
pub proof fn tasks_are_allocated(
    u: Fpu,
    c: Seq<u8>,
    s: Emit,
    cx: Cx,
    loc: Seq<Loc>,
    i: Instr,
    m: Cpu,
) -> (y: Cpu)
    requires
        i is TaskAlloc,
        instr_code(s, cx, loc, i).code.len() <= usize::MAX,
        agrees_around(
            c,
            s.code.len() as int,
            instr_code(s, cx, loc, i).code,
            s.code.len() as int + 6,
            4,
        ),
        m.ip == s.code.len(),
    ensures
        reaches(u, c, m, y),
        quiet(m, y),
        y.regs[6] == i->TaskAlloc_bytes,
        c[y.ip] == 0xE8,
        instr_code(s, cx, loc, i).calls == s.calls.push(
            ((y.ip + 1) as usize, CallTarget::HelperAlloc),
        ),
        forall|z: Cpu|
            z.ip == y.ip + 5 && in_frame(z, home(loc, i->TaskAlloc_dst))
                ==> #[trigger] task_comes_home(
                u,
                c,
                z,
                instr_code(s, cx, loc, i).code.len() as int,
                home(loc, i->TaskAlloc_dst),
            ),
{
    let at = m.ip;
    let d = home(loc, i->TaskAlloc_dst);
    let v = i->TaskAlloc_bytes;
    let p = s.with((Uses { alloc: true, ..s.uses })).raw(seq![0xBE]).imm32(v);
    let k = p.call(CallTarget::HelperAlloc);
    let t = k.raw(seq![0xC7, 0x00]).imm32(1);
    let e = t.put(RAX, d);
    assert(instr_code(s, cx, loc, i) == e);
    assert(p.code.len() == at + 5);
    assert(k.code.len() == at + 10);
    assert(agrees(e.code, 0, e.code));
    lemma_put_front(e.code, 0, t, RAX, d);
    lemma_front(e.code, 0, k.raw(seq![0xC7, 0x00]), le32(1));
    lemma_front(e.code, 0, k, seq![0xC7, 0x00]);
    assert forall|j: int| 0 <= j < p.code.len() implies #[trigger] e.code[j] == p.code[j] by {
        assert(k.code[j] == p.code[j]);
    }
    assert(k.code[at + 5] == 0xE8);
    assert(e.code[at + 5] == k.code[at + 5]);
    assert(c[at + 5] == e.code[at + 5]);
    lemma_before_gap(c, at, p.code, e.code, at + 6, 4);
    assert(agrees(c, at + 10, e.code));
    decode_size(c, s.with((Uses { alloc: true, ..s.uses })), v);
    let y = run_op(
        u,
        c,
        m,
        Op::Mov { to: Place::Reg(6), from: Place::Imm(v as u64) },
        at + 5,
    );
    assert forall|z: Cpu| z.ip == y.ip + 5 && in_frame(z, d) implies #[trigger] task_comes_home(
        u,
        c,
        z,
        e.code.len() as int,
        d,
    ) by {
        let back = run_task(u, c, k, d, z);
        assert(reaches(u, c, z, back));
    }
    y
}

} // verus!
