//! What the processor does with the code of a call: where the arguments are
//! when control leaves, what it leaves for, and where the result goes.
use crate::bytes::{le32, u64_at, wrap32};
use crate::ir::{Instr, VReg};
use crate::target::{Reloc, RelocKind, Section, Sym};
use crate::x86::access::agrees_around;
use crate::x86::arithmetic::run_op;
use crate::x86::emit::{modrm, rex, CallTarget, Emit, ARG, RAX, RDI};
use crate::x86::fragments::{
    agrees, becomes, in_frame, lemma_becomes, lemma_front, lemma_get_front, lemma_imm32,
    lemma_modrm, lemma_plain, lemma_put_front, lemma_reg_operand, lemma_rex, run_get, run_put,
    slot_address, value,
};
use crate::x86::frame::argument_register;
use crate::x86::instrs::{
    cleanup, home, instr_code, load_args, min, place_args, place_behind_receiver, push_args, Cx,
};
use crate::x86::machine::{
    decode, fetch, lemma_byte_elsewhere, lemma_here, lemma_onward, lemma_read_written, prefixes,
    reaches, read64, signed32, signed8, wrap64, write64, Alu, Cpu, Fpu, Op, Place,
};
use crate::x86::regalloc::Loc;
use vstd::prelude::*;

verus! {

/// Whether `l` can be read while the stack grows: a slot of the frame lies
/// above the stack pointer.
pub open spec fn steady(m: Cpu, l: Loc) -> bool {
    in_frame(m, l) && (l matches Loc::Slot(k) ==> slot_address(m, k) >= m.regs[4])
}

pub open spec fn args_steady(m: Cpu, loc: Seq<Loc>, args: Seq<VReg>) -> bool {
    forall|k: int| 0 <= k < args.len() ==> steady(m, home(loc, #[trigger] args[k]))
}

/// Whether the registers that values live in and the frame pointer are as
/// they were, and memory from the old stack pointer up.
pub open spec fn kept(m: Cpu, y: Cpu) -> bool {
    &&& y.regs[3] == m.regs[3]
    &&& y.regs[5] == m.regs[5]
    &&& y.regs[12] == m.regs[12]
    &&& y.regs[13] == m.regs[13]
    &&& y.regs[14] == m.regs[14]
    &&& y.regs[15] == m.regs[15]
    &&& y.regs[4] <= m.regs[4]
    &&& forall|a: int| a >= m.regs[4] ==> #[trigger] y.mem[a] == m.mem[a]
}

/// Whether the arguments are where the calling convention has them: as many
/// as there are registers left from number `first` on, and the rest on the
/// stack, in order.
pub open spec fn passed(m: Cpu, y: Cpu, loc: Seq<Loc>, args: Seq<VReg>, first: int) -> bool {
    let cap = 6 - first;
    let spilled = if args.len() > cap {
        args.len() - cap
    } else {
        0
    };
    &&& forall|k: int|
        0 <= k < args.len() && k < cap ==> y.regs[argument_register(first + k)] == value(
            m,
            home(loc, #[trigger] args[k]),
        )
    &&& forall|k: int|
        cap <= k < args.len() ==> read64(y.mem, y.regs[4] + 8 * (k - cap)) == value(
            m,
            home(loc, #[trigger] args[k]),
        )
    &&& y.regs[4] == m.regs[4] - 8 * spilled
}

proof fn lemma_steady(m: Cpu, y: Cpu, l: Loc)
    requires
        kept(m, y),
        steady(m, l),
    ensures
        value(y, l) == value(m, l),
        steady(y, l),
{
    if let Loc::Slot(k) = l {
        lemma_same_word(m.mem, y.mem, slot_address(m, k));
    }
}

proof fn lemma_same_word(p: Map<int, u8>, q: Map<int, u8>, a: int)
    requires
        forall|b: int| a <= b < a + 8 ==> #[trigger] q[b] == p[b],
    ensures
        read64(q, a) == read64(p, a),
{
    reveal(read64);
    assert(q[a] == p[a] && q[a + 1] == p[a + 1] && q[a + 2] == p[a + 2] && q[a + 3] == p[a + 3]
        && q[a + 4] == p[a + 4] && q[a + 5] == p[a + 5] && q[a + 6] == p[a + 6] && q[a + 7]
        == p[a + 7]);
}

// ---- on the stack

proof fn lemma_push_front(
    c: Seq<u8>,
    from: int,
    s: Emit,
    loc: Seq<Loc>,
    args: Seq<VReg>,
    lo: int,
    hi: int,
)
    requires
        agrees(c, from, push_args(s, loc, args, lo, hi).code),
    ensures
        agrees(c, from, s.code),
        s.code.len() <= push_args(s, loc, args, lo, hi).code.len(),
    decreases hi - lo,
{
    if lo < hi {
        let l = home(loc, args[hi - 1]);
        lemma_push_front(c, from, s.get(RAX, l).raw(seq![0x50]), loc, args, lo, hi - 1);
        lemma_front(c, from, s.get(RAX, l), seq![0x50]);
        lemma_get_front(c, from, s, RAX, l);
    }
}

#[verifier::rlimit(40)]
proof fn run_push(u: Fpu, c: Seq<u8>, s: Emit, l: Loc, m: Cpu) -> (x: Cpu)
    requires
        agrees(c, s.code.len() as int, s.get(RAX, l).raw(seq![0x50]).code),
        m.ip == s.code.len(),
        steady(m, l),
        m.regs[4] >= 8,
    ensures
        reaches(u, c, m, x),
        x.ip == s.get(RAX, l).raw(seq![0x50]).code.len(),
        x.regs[4] == m.regs[4] - 8,
        x.mem == write64(m.mem, m.regs[4] - 8, value(m, l)),
        forall|q: int| q != 4 && q != 0 ==> #[trigger] x.regs[q] == m.regs[q],
        kept(m, x),
{
    let g = s.get(RAX, l);
    let b = seq![0x50u8];
    lemma_front(c, m.ip, g, b);
    lemma_get_front(c, m.ip, s, RAX, l);
    let y = run_get(u, c, s, RAX, l, m);
    let at = g.code.len() as int;
    assert(c[at + 0] == b[0]);
    lemma_plain(c, at);
    assert(decode(c, at) == (Op::Push(0), at + 1)) by {
        reveal(decode);
    }
    let x = run_op(u, c, y, Op::Push(0), at + 1);
    lemma_onward(u, c, m, y, x);
    assert(wrap64(m.regs[4] - 8) == m.regs[4] - 8);
    assert forall|a: int| a >= m.regs[4] implies #[trigger] x.mem[a] == m.mem[a] by {
        lemma_byte_elsewhere(m.mem, m.regs[4] - 8, value(m, l), a);
    }
    x
}

#[verifier::rlimit(40)]
proof fn run_push_args(
    u: Fpu,
    c: Seq<u8>,
    s: Emit,
    loc: Seq<Loc>,
    args: Seq<VReg>,
    lo: int,
    hi: int,
    m: Cpu,
) -> (x: Cpu)
    requires
        0 <= lo <= hi <= args.len(),
        agrees(c, s.code.len() as int, push_args(s, loc, args, lo, hi).code),
        m.ip == s.code.len(),
        args_steady(m, loc, args),
        m.regs[4] >= 8 * (hi - lo),
    ensures
        reaches(u, c, m, x),
        x.ip == push_args(s, loc, args, lo, hi).code.len(),
        x.regs[4] == m.regs[4] - 8 * (hi - lo),
        forall|k: int|
            lo <= k < hi ==> read64(x.mem, x.regs[4] + 8 * (k - lo)) == value(
                m,
                home(loc, #[trigger] args[k]),
            ),
        forall|q: int| q != 4 && q != 0 ==> #[trigger] x.regs[q] == m.regs[q],
        kept(m, x),
    decreases hi - lo,
{
    if lo == hi {
        lemma_here(u, c, m);
        m
    } else {
        let l = home(loc, args[hi - 1]);
        let t = s.get(RAX, l).raw(seq![0x50]);
        lemma_push_front(c, m.ip, t, loc, args, lo, hi - 1);
        lemma_front(c, m.ip, s.get(RAX, l), seq![0x50]);
        lemma_get_front(c, m.ip, s, RAX, l);
        let y = run_push(u, c, s, l, m);
        assert forall|k: int| 0 <= k < args.len() implies steady(
            y,
            home(loc, #[trigger] args[k]),
        ) by {
            lemma_steady(m, y, home(loc, args[k]));
        }
        let x = run_push_args(u, c, t, loc, args, lo, hi - 1, y);
        lemma_onward(u, c, m, y, x);
        assert forall|k: int| lo <= k < hi implies read64(x.mem, x.regs[4] + 8 * (k - lo)) == value(
            m,
            home(loc, #[trigger] args[k]),
        ) by {
            lemma_steady(m, y, home(loc, args[k]));
            if k == hi - 1 {
                assert(x.regs[4] + 8 * (k - lo) == y.regs[4]);
                lemma_same_word(y.mem, x.mem, y.regs[4] as int);
                lemma_read_written(m.mem, m.regs[4] - 8, value(m, l));
            }
        }
        assert forall|a: int| a >= m.regs[4] implies #[trigger] x.mem[a] == m.mem[a] by {
            assert(y.mem[a] == m.mem[a]);
        }
        x
    }
}

// ---- in registers

proof fn lemma_load_front(
    c: Seq<u8>,
    from: int,
    s: Emit,
    loc: Seq<Loc>,
    args: Seq<VReg>,
    first: int,
    n: int,
)
    requires
        agrees(c, from, load_args(s, loc, args, first, n).code),
    ensures
        agrees(c, from, s.code),
        s.code.len() <= load_args(s, loc, args, first, n).code.len(),
    decreases n,
{
    if n > 0 {
        lemma_get_front(
            c,
            from,
            load_args(s, loc, args, first, n - 1),
            ARG@[first + n - 1],
            home(loc, args[n - 1]),
        );
        lemma_load_front(c, from, s, loc, args, first, n - 1);
    }
}

#[verifier::rlimit(40)]
proof fn run_load_args(
    u: Fpu,
    c: Seq<u8>,
    s: Emit,
    loc: Seq<Loc>,
    args: Seq<VReg>,
    first: int,
    n: int,
    m: Cpu,
) -> (x: Cpu)
    requires
        0 <= n <= args.len(),
        0 <= first <= 1,
        first + n <= 6,
        agrees(c, s.code.len() as int, load_args(s, loc, args, first, n).code),
        m.ip == s.code.len(),
        args_steady(m, loc, args),
    ensures
        reaches(u, c, m, x),
        x.ip == load_args(s, loc, args, first, n).code.len(),
        forall|k: int|
            0 <= k < n ==> x.regs[argument_register(first + k)] == value(
                m,
                home(loc, #[trigger] args[k]),
            ),
        kept(m, x),
        x.mem == m.mem,
        x.regs[4] == m.regs[4],
        first == 1 ==> x.regs[7] == m.regs[7],
    decreases n,
{
    if n == 0 {
        lemma_here(u, c, m);
        m
    } else {
        let l = home(loc, args[n - 1]);
        let t = load_args(s, loc, args, first, n - 1);
        let r = ARG@[first + n - 1];
        assert(r == argument_register(first + n - 1));
        lemma_get_front(c, m.ip, t, r, l);
        lemma_load_front(c, m.ip, s, loc, args, first, n - 1);
        let y = run_load_args(u, c, s, loc, args, first, n - 1, m);
        lemma_steady(m, y, l);
        let x = run_get(u, c, t, r, l, y);
        lemma_onward(u, c, m, y, x);
        x
    }
}

// ---- both

proof fn lemma_args_front(c: Seq<u8>, from: int, s: Emit, loc: Seq<Loc>, args: Seq<VReg>, first: int)
    requires
        first == 0 ==> agrees(c, from, place_args(s, loc, args).code),
        first != 0 ==> agrees(c, from, place_behind_receiver(s, loc, args).code),
    ensures
        agrees(c, from, s.code),
        first == 0 ==> s.code.len() <= place_args(s, loc, args).code.len(),
        first != 0 ==> s.code.len() <= place_behind_receiver(s, loc, args).code.len(),
{
    let n = args.len() as int;
    if first == 0 {
        let t = push_args(s, loc, args, 6, n);
        lemma_load_front(c, from, t, loc, args, 0, min(n, 6));
        lemma_push_front(c, from, s, loc, args, 6, n);
    } else {
        let t = load_args(s, loc, args, 1, min(n, 5));
        lemma_push_front(c, from, t, loc, args, 5, n);
        lemma_load_front(c, from, s, loc, args, 1, min(n, 5));
    }
}

#[verifier::rlimit(40)]
proof fn run_place_args(u: Fpu, c: Seq<u8>, s: Emit, loc: Seq<Loc>, args: Seq<VReg>, m: Cpu) -> (x:
    Cpu)
    requires
        agrees(c, s.code.len() as int, place_args(s, loc, args).code),
        m.ip == s.code.len(),
        args_steady(m, loc, args),
        m.regs[4] >= 8 * args.len(),
    ensures
        reaches(u, c, m, x),
        x.ip == place_args(s, loc, args).code.len(),
        passed(m, x, loc, args, 0),
        kept(m, x),
{
    let n = args.len() as int;
    let t = push_args(s, loc, args, 6, n);
    lemma_load_front(c, m.ip, t, loc, args, 0, min(n, 6));
    lemma_push_front(c, m.ip, s, loc, args, 6, n);
    let y = if n <= 6 {
        lemma_here(u, c, m);
        assert(t == s);
        m
    } else {
        run_push_args(u, c, s, loc, args, 6, n, m)
    };
    assert forall|k: int| 0 <= k < args.len() implies steady(y, home(loc, #[trigger] args[k]))
        && value(y, home(loc, args[k])) == value(m, home(loc, args[k])) by {
        lemma_steady(m, y, home(loc, args[k]));
    }
    let x = run_load_args(u, c, t, loc, args, 0, min(n, 6), y);
    lemma_onward(u, c, m, y, x);
    assert forall|k: int| 0 <= k < n && k < 6 implies x.regs[argument_register(0 + k)] == value(
        m,
        home(loc, #[trigger] args[k]),
    ) by {}
    x
}

#[verifier::rlimit(40)]
proof fn run_place_behind(u: Fpu, c: Seq<u8>, s: Emit, loc: Seq<Loc>, args: Seq<VReg>, m: Cpu) -> (x:
    Cpu)
    requires
        agrees(c, s.code.len() as int, place_behind_receiver(s, loc, args).code),
        m.ip == s.code.len(),
        args_steady(m, loc, args),
        m.regs[4] >= 8 * args.len(),
    ensures
        reaches(u, c, m, x),
        x.ip == place_behind_receiver(s, loc, args).code.len(),
        passed(m, x, loc, args, 1),
        x.regs[7] == m.regs[7],
        kept(m, x),
{
    let n = args.len() as int;
    let t = load_args(s, loc, args, 1, min(n, 5));
    lemma_push_front(c, m.ip, t, loc, args, 5, n);
    lemma_load_front(c, m.ip, s, loc, args, 1, min(n, 5));
    let y = run_load_args(u, c, s, loc, args, 1, min(n, 5), m);
    assert forall|k: int| 0 <= k < args.len() implies steady(y, home(loc, #[trigger] args[k]))
        && value(y, home(loc, args[k])) == value(m, home(loc, args[k])) by {
        lemma_steady(m, y, home(loc, args[k]));
    }
    if n <= 5 {
        assert(place_behind_receiver(s, loc, args) == t);
        y
    } else {
        let x = run_push_args(u, c, t, loc, args, 5, n, y);
        lemma_onward(u, c, m, y, x);
        assert forall|k: int| 0 <= k < 5 implies x.regs[argument_register(1 + k)] == value(
            m,
            home(loc, #[trigger] args[k]),
        ) by {}
        x
    }
}

// ---- the call

/// What stands before a gap that a code has from a prefix of it.
pub proof fn lemma_before_gap(c: Seq<u8>, from: int, p: Seq<u8>, e: Seq<u8>, gap: int, n: int)
    requires
        agrees_around(c, from, e, gap, n),
        agrees(e, 0, p),
        p.len() <= gap,
    ensures
        agrees(c, from, p),
{
    assert forall|i: int| from <= i < p.len() implies #[trigger] c[i] == p[i] by {
        assert(e[i] == p[i]);
    }
}

proof fn lemma_cleanup_front(c: Seq<u8>, from: int, s: Emit, n: int)
    requires
        agrees(c, from, cleanup(s, n).code),
    ensures
        agrees(c, from, s.code),
        s.code.len() <= cleanup(s, n).code.len(),
{
    if n <= 6 {
    } else if (n - 6) * 8 <= 120 {
        lemma_front(c, from, s, seq![0x48, 0x83, 0xC4, ((n - 6) * 8) as u8]);
    } else {
        lemma_front(c, from, s.raw(seq![0x48, 0x81, 0xC4]), le32(wrap32((n - 6) * 8)));
        lemma_front(c, from, s, seq![0x48, 0x81, 0xC4]);
    }
}

/// The code of a call behind what places its arguments.
pub open spec fn calling(t: Emit, target: CallTarget, n: int, d: Loc) -> Emit {
    cleanup(t.call(target), n).put(RAX, d)
}

pub proof fn lemma_calling(c: Seq<u8>, from: int, t: Emit, target: CallTarget, n: int, d: Loc)
    requires
        agrees_around(c, from, calling(t, target, n, d).code, t.code.len() as int + 1, 4),
        from <= t.code.len(),
    ensures
        agrees(c, from, t.code),
        c[t.code.len() as int] == 0xE8,
        calling(t, target, n, d).calls == t.calls.push(((t.code.len() + 1) as usize, target)),
        agrees(c, t.code.len() as int + 5, calling(t, target, n, d).code),
        t.call(target).code.len() == t.code.len() + 5,
        t.call(target).code.len() <= calling(t, target, n, d).code.len(),
{
    let e = calling(t, target, n, d).code;
    let k = t.call(target);
    let f = cleanup(k, n);
    assert(agrees(e, 0, e));
    lemma_put_front(e, 0, f, RAX, d);
    lemma_cleanup_front(e, 0, k, n);
    let at = t.code.len() as int;
    assert(k.code[at] == 0xE8);
    assert(e[at] == k.code[at]);
    assert(c[at] == e[at]);
    assert forall|i: int| 0 <= i < t.code.len() implies #[trigger] e[i] == t.code[i] by {
        assert(k.code[i] == t.code[i]);
    }
    lemma_before_gap(c, from, t.code, e, at + 1, 4);
}

/// Arguments of a call.
pub open spec fn arguments(i: Instr) -> Seq<VReg> {
    match i {
        Instr::CallFn { args, .. } => args@,
        Instr::CallStatic { args, .. } => args@,
        Instr::CallVirt { args, .. } => args@,
        Instr::CallImport { args, .. } => args@,
        _ => Seq::empty(),
    }
}

/// The function that a direct call is of.
pub open spec fn called(i: Instr) -> Option<u32> {
    match i {
        Instr::CallFn { fidx, .. } => Some(fidx),
        Instr::CallStatic { fidx, .. } => Some(fidx),
        _ => None,
    }
}

/// Where the result of a call goes.
pub open spec fn result_home(loc: Seq<Loc>, i: Instr) -> Loc {
    match i {
        Instr::CallFn { dst, .. } => home(loc, dst),
        Instr::CallStatic { dst, .. } => home(loc, dst),
        Instr::CallVirt { dst, .. } => home(loc, dst),
        Instr::CallImport { dst, .. } => home(loc, dst),
        _ => Loc::Slot(0),
    }
}

/// Whether the callee of `i` expects a receiver before its arguments.
pub open spec fn behind_receiver(cx: Cx, i: Instr) -> bool {
    match i {
        Instr::CallStatic { fidx, .. } => fidx < cx.takes_receiver.len() ==> cx.takes_receiver[fidx as int],
        Instr::CallVirt { .. } => true,
        _ => false,
    }
}

proof fn decode_clear(c: Seq<u8>, s: Emit)
    requires
        agrees(c, s.code.len() as int, s.raw(seq![0x31, 0xFF]).code),
    ensures
        decode(c, s.code.len() as int) == (
            Op::Arith {
                f: Alu::Differ,
                wide: false,
                keep: true,
                to: Place::Reg(7),
                from: Place::Reg(7),
            },
            s.code.len() as int + 2,
        ),
{
    let at = s.code.len() as int;
    let b = seq![0x31u8, 0xFF];
    lemma_front(c, at, s, b);
    assert(c[at + 0] == b[0] && c[at + 1] == b[1]);
    lemma_plain(c, at);
    assert(modrm(3, 7, 7) == 0xFF);
    lemma_reg_operand(c, prefixes(c, at), at + 1, 7, 7);
    reveal(decode);
}

pub proof fn run_clear(u: Fpu, c: Seq<u8>, s: Emit, m: Cpu) -> (x: Cpu)
    requires
        agrees(c, s.code.len() as int, s.raw(seq![0x31, 0xFF]).code),
        m.ip == s.code.len(),
    ensures
        reaches(u, c, m, x),
        x.ip == s.code.len() + 2,
        x.regs[7] == 0,
        forall|q: int| q != 7 ==> #[trigger] x.regs[q] == m.regs[q],
        x.mem == m.mem,
{
    decode_clear(c, s);
    let v = m.regs[7];
    assert(v ^ v == 0) by (bit_vector);
    run_op(
        u,
        c,
        m,
        Op::Arith {
            f: Alu::Differ,
            wide: false,
            keep: true,
            to: Place::Reg(7),
            from: Place::Reg(7),
        },
        s.code.len() as int + 2,
    )
}

/// A direct call leaves with its arguments in place, and with zero for a
/// receiver where the callee expects one; and what it leaves for is recorded
/// to be the function that the instruction names.
#[verifier::spinoff_prover]
#[verifier::rlimit(40)]
pub proof fn calls_pass_their_arguments(
    u: Fpu,
    c: Seq<u8>,
    s: Emit,
    cx: Cx,
    loc: Seq<Loc>,
    i: Instr,
    m: Cpu,
) -> (y: Cpu)
    requires
        called(i) is Some,
        instr_code(s, cx, loc, i).code.len() <= usize::MAX,
        agrees_around(
            c,
            s.code.len() as int,
            instr_code(s, cx, loc, i).code,
            instr_code(s, cx, loc, i).calls.last().0 as int,
            4,
        ),
        m.ip == s.code.len(),
        args_steady(m, loc, arguments(i)),
        m.regs[4] >= 8 * arguments(i).len(),
    ensures
        reaches(u, c, m, y),
        kept(m, y),
        passed(
            m,
            y,
            loc,
            arguments(i),
            if behind_receiver(cx, i) {
                1
            } else {
                0
            },
        ),
        behind_receiver(cx, i) ==> y.regs[7] == 0,
        c[y.ip] == 0xE8,
        instr_code(s, cx, loc, i).calls.last() == (
            (y.ip + 1) as usize,
            CallTarget::Fn(called(i)->0),
        ),
{
    let at = m.ip;
    let args = arguments(i);
    let target = CallTarget::Fn(called(i)->0);
    let d = result_home(loc, i);
    let n = args.len() as int;
    let cleared = s.raw(seq![0x31, 0xFF]);
    let t = if behind_receiver(cx, i) {
        place_behind_receiver(cleared, loc, args)
    } else {
        place_args(s, loc, args)
    };
    let e = calling(t, target, n, d);
    assert(instr_code(s, cx, loc, i) == e);
    lemma_long(t, target, n, d);
    lemma_calls_of(t, target, n, d);
    assert(agrees(t.code, 0, t.code));
    if behind_receiver(cx, i) {
        lemma_args_front(t.code, 0, cleared, loc, args, 1);
        assert(cleared.code.len() == at + 2);
        lemma_calling(c, at, t, target, n, d);
        lemma_args_front(c, at, cleared, loc, args, 1);
        lemma_front(c, at, s, seq![0x31, 0xFF]);
        let w = run_clear(u, c, s, m);
        assert forall|k: int| 0 <= k < args.len() implies steady(w, home(loc, #[trigger] args[k]))
            && value(w, home(loc, args[k])) == value(m, home(loc, args[k])) by {
            lemma_steady(m, w, home(loc, args[k]));
        }
        let y = run_place_behind(u, c, cleared, loc, args, w);
        lemma_onward(u, c, m, w, y);
        y
    } else {
        lemma_args_front(t.code, 0, s, loc, args, 0);
        lemma_calling(c, at, t, target, n, d);
        run_place_args(u, c, s, loc, args, m)
    }
}

pub proof fn lemma_long(t: Emit, target: CallTarget, n: int, d: Loc)
    ensures
        t.code.len() + 5 <= calling(t, target, n, d).code.len(),
{
    let e = calling(t, target, n, d).code;
    let k = t.call(target);
    assert(agrees(e, 0, e));
    lemma_put_front(e, 0, cleanup(k, n), RAX, d);
    lemma_cleanup_front(e, 0, k, n);
}

proof fn lemma_calls_of(t: Emit, target: CallTarget, n: int, d: Loc)
    ensures
        calling(t, target, n, d).calls == t.calls.push(((t.code.len() + 1) as usize, target)),
{
}

// ---- behind the call

/// Bytes that the code behind a call takes off the stack.
pub open spec fn freed(i: Instr) -> int {
    if arguments(i).len() > 6 && !(i is CallImport) {
        8 * (arguments(i).len() - 6)
    } else {
        0
    }
}

proof fn decode_free_small(c: Seq<u8>, s: Emit, n: int)
    requires
        0 < n <= 120,
        agrees(c, s.code.len() as int, s.raw(seq![0x48, 0x83, 0xC4, n as u8]).code),
    ensures
        decode(c, s.code.len() as int) == (
            Op::Arith {
                f: Alu::Plus,
                wide: true,
                keep: true,
                to: Place::Reg(4),
                from: Place::Imm(n as u64),
            },
            s.code.len() as int + 4,
        ),
{
    let at = s.code.len() as int;
    let b = seq![0x48u8, 0x83, 0xC4, n as u8];
    lemma_front(c, at, s, b);
    assert(c[at + 0] == b[0] && c[at + 1] == b[1] && c[at + 2] == b[2] && c[at + 3] == b[3]);
    assert(rex(true, false, false) == 0x48 && modrm(3, 0, 4) == 0xC4);
    lemma_rex(c, at, true, false, false);
    lemma_reg_operand(c, prefixes(c, at), at + 2, 0, 4);
    assert(wrap64(signed8(n as u8)) == n as u64);
    reveal(decode);
}

proof fn decode_free_large(c: Seq<u8>, s: Emit, n: int)
    requires
        120 < n < 0x8000_0000,
        agrees(c, s.code.len() as int, s.raw(seq![0x48, 0x81, 0xC4]).imm32(wrap32(n)).code),
    ensures
        decode(c, s.code.len() as int) == (
            Op::Arith {
                f: Alu::Plus,
                wide: true,
                keep: true,
                to: Place::Reg(4),
                from: Place::Imm(n as u64),
            },
            s.code.len() as int + 7,
        ),
{
    let at = s.code.len() as int;
    let b = seq![0x48u8, 0x81, 0xC4];
    lemma_front(c, at, s.raw(b), le32(wrap32(n)));
    lemma_front(c, at, s, b);
    assert(c[at + 0] == b[0] && c[at + 1] == b[1] && c[at + 2] == b[2]);
    assert(rex(true, false, false) == 0x48 && modrm(3, 0, 4) == 0xC4);
    lemma_rex(c, at, true, false, false);
    lemma_reg_operand(c, prefixes(c, at), at + 2, 0, 4);
    lemma_imm32(c, s.raw(b), wrap32(n));
    assert(wrap64(signed32(wrap32(n))) == n as u64);
    reveal(decode);
}

proof fn run_cleanup(u: Fpu, c: Seq<u8>, s: Emit, n: int, m: Cpu) -> (x: Cpu)
    requires
        agrees(c, s.code.len() as int, cleanup(s, n).code),
        m.ip == s.code.len(),
        n < 0x1000_0000,
        n > 6 ==> m.regs[4] + 8 * (n - 6) < 0x1_0000_0000_0000_0000,
    ensures
        reaches(u, c, m, x),
        x.ip == cleanup(s, n).code.len(),
        x.regs[4] == m.regs[4] + if n > 6 {
            8 * (n - 6)
        } else {
            0
        },
        forall|q: int| q != 4 ==> #[trigger] x.regs[q] == m.regs[q],
        x.mem == m.mem,
{
    if n <= 6 {
        lemma_here(u, c, m);
        m
    } else {
        let k = (n - 6) * 8;
        if k <= 120 {
            decode_free_small(c, s, k);
        } else {
            decode_free_large(c, s, k);
        }
        run_op(
            u,
            c,
            m,
            Op::Arith {
                f: Alu::Plus,
                wide: true,
                keep: true,
                to: Place::Reg(4),
                from: Place::Imm(k as u64),
            },
            cleanup(s, n).code.len() as int,
        )
    }
}

#[verifier::rlimit(40)]
pub proof fn run_back(u: Fpu, c: Seq<u8>, s: Emit, n: int, d: Loc, z: Cpu) -> (x: Cpu)
    requires
        agrees(c, s.code.len() as int, cleanup(s, n).put(RAX, d).code),
        z.ip == s.code.len(),
        in_frame(z, d),
        n < 0x1000_0000,
        n > 6 ==> z.regs[4] + 8 * (n - 6) < 0x1_0000_0000_0000_0000,
    ensures
        reaches(u, c, z, x),
        x.ip == cleanup(s, n).put(RAX, d).code.len(),
        ({
            let up = if n > 6 {
                8 * (n - 6)
            } else {
                0
            };
            becomes(
                Cpu { regs: z.regs.insert(4, (z.regs[4] + up) as u64), ..z },
                x,
                d,
                z.regs[0],
            )
        }),
{
    lemma_put_front(c, z.ip, cleanup(s, n), RAX, d);
    lemma_cleanup_front(c, z.ip, s, n);
    let y = run_cleanup(u, c, s, n, z);
    let x = run_put(u, c, cleanup(s, n), RAX, d, y);
    lemma_onward(u, c, z, y, x);
    let up = if n > 6 {
        8 * (n - 6)
    } else {
        0
    };
    let w = Cpu { regs: z.regs.insert(4, (z.regs[4] + up) as u64), ..z };
    lemma_becomes(w, y, x, d, z.regs[0]);
    x
}

/// Behind a direct call, what the calling convention has the caller take off
/// the stack is taken off, and the result goes from `rax` into its home.
pub proof fn results_come_home(
    u: Fpu,
    c: Seq<u8>,
    s: Emit,
    cx: Cx,
    loc: Seq<Loc>,
    i: Instr,
    z: Cpu,
) -> (x: Cpu)
    requires
        called(i) is Some,
        instr_code(s, cx, loc, i).code.len() <= usize::MAX,
        agrees_around(
            c,
            s.code.len() as int,
            instr_code(s, cx, loc, i).code,
            instr_code(s, cx, loc, i).calls.last().0 as int,
            4,
        ),
        z.ip == instr_code(s, cx, loc, i).calls.last().0 + 4,
        in_frame(z, result_home(loc, i)),
        arguments(i).len() < 0x1000_0000,
        z.regs[4] + freed(i) < 0x1_0000_0000_0000_0000,
    ensures
        reaches(u, c, z, x),
        x.ip == instr_code(s, cx, loc, i).code.len(),
        becomes(
            Cpu { regs: z.regs.insert(4, (z.regs[4] + freed(i)) as u64), ..z },
            x,
            result_home(loc, i),
            z.regs[0],
        ),
{
    let args = arguments(i);
    let target = CallTarget::Fn(called(i)->0);
    let d = result_home(loc, i);
    let n = args.len() as int;
    let cleared = s.raw(seq![0x31, 0xFF]);
    let t = if behind_receiver(cx, i) {
        place_behind_receiver(cleared, loc, args)
    } else {
        place_args(s, loc, args)
    };
    let e = calling(t, target, n, d);
    assert(instr_code(s, cx, loc, i) == e);
    lemma_long(t, target, n, d);
    lemma_calls_of(t, target, n, d);
    assert(agrees(t.code, 0, t.code));
    if behind_receiver(cx, i) {
        lemma_args_front(t.code, 0, cleared, loc, args, 1);
    } else {
        lemma_args_front(t.code, 0, s, loc, args, 0);
    }
    lemma_calling(c, s.code.len() as int, t, target, n, d);
    run_back(u, c, t.call(target), n, d, z)
}

/// Whether from `z`, the processor when a call comes back, the code up to
/// `end` takes `up` bytes off the stack and puts `rax` into `d`.
pub open spec fn comes_home(u: Fpu, c: Seq<u8>, z: Cpu, end: int, d: Loc, up: int) -> bool {
    exists|x: Cpu| #[trigger]
        reaches(u, c, z, x) && x.ip == end && becomes(
            Cpu { regs: z.regs.insert(4, (z.regs[4] + up) as u64), ..z },
            x,
            d,
            z.regs[0],
        )
}

// ---- calls through memory and through addresses

proof fn decode_virtual(c: Seq<u8>, s: Emit, off: u32)
    requires
        agrees(
            c,
            s.code.len() as int,
            s.raw(seq![rex(true, true, false), 0x8B, modrm(0, 2, 7)]).raw(
                seq![rex(true, false, true), 0xFF, modrm(2, 2, 4), modrm(0, 4, 2)],
            ).imm32(off).code,
        ),
    ensures
        decode(c, s.code.len() as int) == (
            Op::Mov {
                to: Place::Reg(10),
                from: Place::Mem { base: 7, index: -1, scale: 1, disp: 0 },
            },
            s.code.len() as int + 3,
        ),
        decode(c, s.code.len() as int + 3) == (
            Op::CallThrough(Place::Mem { base: 10, index: -1, scale: 1, disp: signed32(off) }),
            s.code.len() as int + 11,
        ),
{
    let at = s.code.len() as int;
    let a = seq![rex(true, true, false), 0x8B, modrm(0, 2, 7)];
    let b = seq![rex(true, false, true), 0xFF, modrm(2, 2, 4), modrm(0, 4, 2)];
    let t = s.raw(a);
    lemma_front(c, at, t.raw(b), le32(off));
    lemma_front(c, at, t, b);
    lemma_front(c, at, s, a);
    assert(c[at + 0] == a[0] && c[at + 1] == a[1] && c[at + 2] == a[2]);
    assert(c[at + 3 + 0] == b[0] && c[at + 3 + 1] == b[1] && c[at + 3 + 2] == b[2] && c[at + 3 + 3]
        == b[3]);
    lemma_rex(c, at, true, true, false);
    lemma_rex(c, at + 3, true, false, true);
    lemma_modrm(0, 2, 7);
    lemma_modrm(2, 2, 4);
    lemma_modrm(0, 4, 2);
    lemma_imm32(c, t.raw(b), off);
    reveal(decode);
}

/// A virtual call leaves with its arguments in place behind the receiver, for
/// the address in the slot of the table that the receiver's first word
/// points to.
#[verifier::spinoff_prover]
#[verifier::rlimit(40)]
pub proof fn virtual_calls_go_through_the_table(
    u: Fpu,
    c: Seq<u8>,
    s: Emit,
    cx: Cx,
    loc: Seq<Loc>,
    i: Instr,
    m: Cpu,
) -> (y: Cpu)
    requires
        i is CallVirt,
        i->CallVirt_slot * 8 <= u32::MAX,
        agrees(c, s.code.len() as int, instr_code(s, cx, loc, i).code),
        m.ip == s.code.len(),
        args_steady(m, loc, arguments(i)),
        steady(m, home(loc, i->CallVirt_recv)),
        m.regs[4] >= 8 * arguments(i).len(),
    ensures
        reaches(u, c, m, y),
        kept(m, y),
        passed(m, y, loc, arguments(i), 1),
        y.regs[7] == value(m, home(loc, i->CallVirt_recv)),
        decode(c, y.ip).0 is CallThrough,
        ({
            let p = decode(c, y.ip).0->CallThrough_0;
            let next = decode(c, y.ip).1;
            let table = read64(y.mem, value(m, home(loc, i->CallVirt_recv)) as int);
            fetch(y, p, next) == read64(
                y.mem,
                wrap64(table + signed32((8 * i->CallVirt_slot) as u32)) as int,
            )
        }),
        forall|z: Cpu|
            z.ip == decode(c, y.ip).1 && in_frame(z, result_home(loc, i)) && arguments(i).len()
                < 0x1000_0000 && z.regs[4] + freed(i) < 0x1_0000_0000_0000_0000
                ==> #[trigger] comes_home(
                u,
                c,
                z,
                instr_code(s, cx, loc, i).code.len() as int,
                result_home(loc, i),
                freed(i),
            ),
{
    let at = m.ip;
    let args = arguments(i);
    let n = args.len() as int;
    let recv = home(loc, i->CallVirt_recv);
    let d = result_home(loc, i);
    let off = (i->CallVirt_slot * 8) as u32;
    let g = s.get(RDI, recv);
    let t = place_behind_receiver(g, loc, args);
    lemma_virtual_front(c, at, t, off, n, d);
    lemma_args_front(c, at, g, loc, args, 1);
    lemma_get_front(c, at, s, RDI, recv);
    let w = run_get(u, c, s, RDI, recv, m);
    assert forall|j: int| 0 <= j < args.len() implies steady(w, home(loc, #[trigger] args[j]))
        && value(w, home(loc, args[j])) == value(m, home(loc, args[j])) by {
        lemma_steady(m, w, home(loc, args[j]));
    }
    let x = run_place_behind(u, c, g, loc, args, w);
    lemma_onward(u, c, m, w, x);
    let y = run_table(u, c, t, off, x);
    lemma_onward(u, c, m, x, y);
    let k = through_table(t, off);
    assert forall|z: Cpu|
        z.ip == decode(c, y.ip).1 && in_frame(z, d) && n < 0x1000_0000 && z.regs[4] + freed(i)
            < 0x1_0000_0000_0000_0000 implies #[trigger] comes_home(
        u,
        c,
        z,
        instr_code(s, cx, loc, i).code.len() as int,
        d,
        freed(i),
    ) by {
        let back = run_back(u, c, k, n, d, z);
        assert(reaches(u, c, z, back));
    }
    y
}

/// The code of a virtual call behind what places its arguments.
spec fn through_table(t: Emit, off: u32) -> Emit {
    t.raw(seq![rex(true, true, false), 0x8B, modrm(0, 2, 7)]).raw(
        seq![rex(true, false, true), 0xFF, modrm(2, 2, 4), modrm(0, 4, 2)],
    ).imm32(off)
}

proof fn lemma_virtual_front(c: Seq<u8>, from: int, t: Emit, off: u32, n: int, d: Loc)
    requires
        agrees(c, from, cleanup(through_table(t, off), n).put(RAX, d).code),
    ensures
        agrees(c, from, through_table(t, off).code),
        agrees(c, from, t.code),
        t.code.len() <= through_table(t, off).code.len(),
{
    let a = seq![rex(true, true, false), 0x8B, modrm(0, 2, 7)];
    let b = seq![rex(true, false, true), 0xFF, modrm(2, 2, 4), modrm(0, 4, 2)];
    let k = through_table(t, off);
    lemma_put_front(c, from, cleanup(k, n), RAX, d);
    lemma_cleanup_front(c, from, k, n);
    lemma_front(c, from, t.raw(a).raw(b), le32(off));
    lemma_front(c, from, t.raw(a), b);
    lemma_front(c, from, t, a);
}

proof fn run_table(u: Fpu, c: Seq<u8>, t: Emit, off: u32, x: Cpu) -> (y: Cpu)
    requires
        agrees(c, t.code.len() as int, through_table(t, off).code),
        x.ip == t.code.len(),
    ensures
        reaches(u, c, x, y),
        y.regs == x.regs.insert(10, read64(x.mem, x.regs[7] as int)),
        y.mem == x.mem,
        decode(c, y.ip).0 is CallThrough,
        decode(c, y.ip).1 == through_table(t, off).code.len(),
        fetch(y, decode(c, y.ip).0->CallThrough_0, decode(c, y.ip).1) == read64(
            x.mem,
            wrap64(y.regs[10] + signed32(off)) as int,
        ),
{
    decode_virtual(c, t, off);
    run_op(
        u,
        c,
        x,
        Op::Mov {
            to: Place::Reg(10),
            from: Place::Mem { base: 7, index: -1, scale: 1, disp: 0 },
        },
        t.code.len() as int + 3,
    )
}

proof fn decode_through_rax(c: Seq<u8>, at: int)
    requires
        c[at] == 0xFF,
        c[at + 1] == 0xD0,
    ensures
        decode(c, at) == (Op::CallThrough(Place::Reg(0)), at + 2),
{
    lemma_plain(c, at);
    assert(modrm(3, 2, 0) == 0xD0);
    lemma_reg_operand(c, prefixes(c, at), at + 1, 2, 0);
    reveal(decode);
}

/// A call of an import leaves with its arguments in place, for what its
/// window holds when the code runs; and the window is recorded as one to be
/// filled with the address of the import that the instruction names.
#[verifier::spinoff_prover]
#[verifier::rlimit(40)]
pub proof fn imports_are_called_through_their_windows(
    u: Fpu,
    c: Seq<u8>,
    s: Emit,
    cx: Cx,
    loc: Seq<Loc>,
    i: Instr,
    m: Cpu,
) -> (y: Cpu)
    requires
        i is CallImport,
        instr_code(s, cx, loc, i).code.len() <= usize::MAX,
        agrees_around(
            c,
            s.code.len() as int,
            instr_code(s, cx, loc, i).code,
            instr_code(s, cx, loc, i).relocs.last().site as int,
            8,
        ),
        m.ip == s.code.len(),
        args_steady(m, loc, arguments(i)),
        m.regs[4] >= 8 * arguments(i).len(),
    ensures
        reaches(u, c, m, y),
        kept(m, y),
        passed(m, y, loc, arguments(i), 0),
        decode(c, y.ip).0 == Op::CallThrough(Place::Reg(0)),
        y.regs[0] == u64_at(c, instr_code(s, cx, loc, i).relocs.last().site as int),
        instr_code(s, cx, loc, i).relocs.last() == (Reloc {
            kind: RelocKind::Abs64,
            section: Section::Code,
            site: (y.ip - 8) as usize,
            sym: Sym::Import(i->CallImport_import as usize),
        }),
        forall|z: Cpu|
            z.ip == decode(c, y.ip).1 && in_frame(z, result_home(loc, i))
                ==> #[trigger] comes_home(
                u,
                c,
                z,
                instr_code(s, cx, loc, i).code.len() as int,
                result_home(loc, i),
                freed(i),
            ),
{
    let at = m.ip;
    let args = arguments(i);
    let sym = Sym::Import(i->CallImport_import as usize);
    let d = result_home(loc, i);
    let t = place_args(s, loc, args);
    let w = t.window(RAX, sym);
    let b = seq![0xFFu8, 0xD0];
    let e = w.raw(b).put(RAX, d);
    assert(instr_code(s, cx, loc, i) == e);
    let p = t.code.len() as int;
    assert(w.code.len() == p + 10);
    assert(agrees(e.code, 0, e.code));
    lemma_put_front(e.code, 0, w.raw(b), RAX, d);
    lemma_front(e.code, 0, w, b);
    assert(agrees(t.code, 0, t.code));
    lemma_args_front(t.code, 0, s, loc, args, 0);
    assert(e.relocs.last().site == p + 2);
    assert forall|j: int| 0 <= j < t.code.len() implies #[trigger] e.code[j] == t.code[j] by {
        assert(w.code[j] == t.code[j]);
    }
    lemma_before_gap(c, at, t.code, e.code, p + 2, 8);
    let x = run_place_args(u, c, s, loc, args, m);
    assert(w.code[p] == 0x48 && w.code[p + 1] == 0xB8);
    assert(e.code[p] == w.code[p] && e.code[p + 1] == w.code[p + 1]);
    assert(c[p] == e.code[p] && c[p + 1] == e.code[p + 1]);
    assert(e.code[p + 10 + 0] == b[0] && e.code[p + 10 + 1] == b[1]);
    assert(c[p + 10] == e.code[p + 10] && c[p + 11] == e.code[p + 11]);
    assert(decode(c, p) == (
        Op::Mov { to: Place::Reg(0), from: Place::Imm(u64_at(c, p + 2)) },
        p + 10,
    )) by {
        reveal(decode);
    }
    let y = run_op(
        u,
        c,
        x,
        Op::Mov { to: Place::Reg(0), from: Place::Imm(u64_at(c, p + 2)) },
        p + 10,
    );
    lemma_onward(u, c, m, x, y);
    decode_through_rax(c, p + 10);
    assert(agrees(c, p + 12, e.code));
    assert forall|z: Cpu| z.ip == p + 12 && in_frame(z, d) implies #[trigger] comes_home(
        u,
        c,
        z,
        e.code.len() as int,
        d,
        freed(i),
    ) by {
        let back = run_put(u, c, w.raw(b), RAX, d, z);
        let same = Cpu { regs: z.regs.insert(4, (z.regs[4] + 0) as u64), ..z };
        lemma_becomes(same, z, back, d, z.regs[0]);
        assert(reaches(u, c, z, back));
    }
    y
}

} // verus!
