//! What the processor does with the entries of a shared object's exports.
use crate::bytes::{le32, lemma_u32_at, wrap32};
use crate::target::McView;
use crate::x86::arithmetic::run_op;
use crate::x86::emit::{modrm, rex, ARG};
use crate::x86::executable::header_at;
use crate::x86::fragments::{lemma_plain, lemma_reg_operand, lemma_rex};
use crate::x86::frame::argument_register;
use crate::x86::instrs::min;
use crate::x86::machine::{
    decode, lemma_here, lemma_onward, prefixes, reaches, signed32, Alu, Cpu, Fpu, Op, Place,
};
use crate::x86::shared::{lemma_segments, lemma_symbol_value, st_value};
use crate::x86::shlib::{
    body_vaddr, entries_size, entry_vaddr, image_holds_its_pieces, image_of, layout_of,
    lemma_entries_grow, lemma_layout, lemma_trampolines_len, shared_ready, shift_args,
    takes_receiver, trampoline, trampoline_fits_its_room, trampolines, windows_inside, CODE_BASE,
};
use vstd::prelude::*;

verus! {

/// Whether `c` holds the bytes of `b` from `at` on.
pub open spec fn holds_at(c: Seq<u8>, at: int, b: Seq<u8>) -> bool {
    forall|j: int| 0 <= j < b.len() ==> c[at + j] == #[trigger] b[j]
}

/// Whether `x` is `m` with the first `n` arguments one register on.
pub open spec fn shifted(m: Cpu, x: Cpu, n: int) -> bool {
    &&& forall|k: int|
        0 <= k < n ==> x.regs[#[trigger] argument_register(k + 1)] == m.regs[argument_register(k)]
    &&& forall|q: int|
        (forall|k: int| 0 <= k < n ==> q != #[trigger] argument_register(k + 1))
            ==> #[trigger] x.regs[q] == m.regs[q]
    &&& x.mem == m.mem
}

proof fn lemma_shift_len(n: int)
    requires
        0 <= n <= 5,
    ensures
        shift_args(n).len() == 3 * n,
    decreases n,
{
    if n > 0 {
        lemma_shift_len(n - 1);
    }
}

proof fn decode_shift(c: Seq<u8>, at: int, from: u8, to: u8)
    requires
        c[at] == rex(true, from >= 8, to >= 8),
        c[at + 1] == 0x89,
        c[at + 2] == modrm(3, from, to),
        from < 16,
        to < 16,
    ensures
        decode(c, at) == (
            Op::Mov { to: Place::Reg(to as int), from: Place::Reg(from as int) },
            at + 3,
        ),
{
    lemma_rex(c, at, true, from >= 8, to >= 8);
    lemma_reg_operand(c, prefixes(c, at), at + 2, from, to);
    reveal(decode);
}

proof fn lemma_registers_differ(i: int, j: int)
    requires
        0 <= i < 6,
        0 <= j < 6,
        i != j,
    ensures
        argument_register(i) != argument_register(j),
{
}

#[verifier::rlimit(40)]
proof fn run_shift(u: Fpu, c: Seq<u8>, at: int, n: int, m: Cpu) -> (x: Cpu)
    requires
        0 <= n <= 5,
        holds_at(c, at, shift_args(n)),
        m.ip == at,
    ensures
        reaches(u, c, m, x),
        x.ip == at + 3 * n,
        shifted(m, x, n),
    decreases n,
{
    if n == 0 {
        lemma_here(u, c, m);
        m
    } else {
        let from = ARG@[n - 1];
        let to = ARG@[n];
        let b = shift_args(n);
        assert(from == argument_register(n - 1) && to == argument_register(n));
        assert(b[0] == rex(true, from >= 8, to >= 8) && b[1] == 0x89 && b[2] == modrm(
            3,
            from,
            to,
        ));
        assert(c[at + 0] == b[0] && c[at + 1] == b[1] && c[at + 2] == b[2]);
        decode_shift(c, at, from, to);
        let y = run_op(
            u,
            c,
            m,
            Op::Mov { to: Place::Reg(to as int), from: Place::Reg(from as int) },
            at + 3,
        );
        assert(holds_at(c, at + 3, shift_args(n - 1))) by {
            assert forall|j: int| 0 <= j < shift_args(n - 1).len() implies c[at + 3 + j]
                == #[trigger] shift_args(n - 1)[j] by {
                assert(b[3 + j] == shift_args(n - 1)[j]);
            }
        }
        let x = run_shift(u, c, at + 3, n - 1, y);
        lemma_onward(u, c, m, y, x);
        assert forall|k: int| 0 <= k < n implies x.regs[#[trigger] argument_register(k + 1)]
            == m.regs[argument_register(k)] by {
            lemma_registers_differ(k, n);
            if k == n - 1 {
                assert forall|i: int| 0 <= i < n - 1 implies argument_register(n)
                    != #[trigger] argument_register(i + 1) by {
                    lemma_registers_differ(n, i + 1);
                }
            }
        }
        assert forall|q: int|
            (forall|k: int| 0 <= k < n ==> q != #[trigger] argument_register(k + 1)) implies
        #[trigger] x.regs[q] == m.regs[q] by {
            assert(q != argument_register((n - 1) + 1));
            assert(y.regs[q] == m.regs[q]);
        }
        x
    }
}

proof fn decode_clear(c: Seq<u8>, at: int)
    requires
        c[at] == 0x31,
        c[at + 1] == 0xFF,
    ensures
        decode(c, at) == (
            Op::Arith {
                f: Alu::Differ,
                wide: false,
                keep: true,
                to: Place::Reg(7),
                from: Place::Reg(7),
            },
            at + 2,
        ),
{
    lemma_plain(c, at);
    assert(modrm(3, 7, 7) == 0xFF);
    lemma_reg_operand(c, prefixes(c, at), at + 1, 7, 7);
    reveal(decode);
}

proof fn decode_call(c: Seq<u8>, at: int, body: int)
    requires
        c[at] == 0xE8,
        holds_at(c, at + 1, le32(wrap32(body - (at + 5)))),
        c[at + 5] == 0xC3,
        0 <= at < 0x4000_0000,
        0 <= body < 0x4000_0000,
        at + 5 <= c.len(),
    ensures
        decode(c, at) == (Op::Call(body - (at + 5)), at + 5),
        decode(c, at + 5).0 is Ret,
{
    let v = wrap32(body - (at + 5));
    assert(le32(v).len() == 4);
    assert(c.subrange(at + 1, at + 5) =~= le32(v)) by {
        assert forall|j: int| 0 <= j < 4 implies c.subrange(at + 1, at + 5)[j] == le32(v)[j] by {
            assert(c[at + 1 + j] == le32(v)[j]);
        }
    }
    lemma_u32_at(c, at + 1, v);
    assert(signed32(v) == body - (at + 5));
    lemma_plain(c, at);
    lemma_plain(c, at + 5);
    reveal(decode);
}

/// The entry of an export leads to a call of its body. A body with a receiver
/// gets zero for it and the arguments one register on, as far as there are
/// registers; one without gets everything as it came. Behind the call the
/// entry returns.
#[verifier::spinoff_prover]
#[verifier::rlimit(40)]
pub proof fn entries_call_their_bodies(
    u: Fpu,
    c: Seq<u8>,
    nargs: int,
    at: int,
    body: int,
    receiver: bool,
    m: Cpu,
) -> (y: Cpu)
    requires
        0 <= nargs,
        0 <= at < 0x3FFF_0000,
        0 <= body < 0x4000_0000,
        holds_at(c, at, trampoline(nargs, at, body, receiver)),
        at + trampoline(nargs, at, body, receiver).len() <= c.len(),
        m.ip == at,
    ensures
        reaches(u, c, m, y),
        decode(c, y.ip).0 is Call,
        decode(c, y.ip).1 + decode(c, y.ip).0->Call_0 == body,
        decode(c, decode(c, y.ip).1).0 is Ret,
        y.mem == m.mem,
        y.regs[4] == m.regs[4],
        !receiver ==> y.regs == m.regs,
        receiver ==> y.regs[7] == 0,
        receiver ==> forall|k: int|
            0 <= k < nargs && k < 5 ==> y.regs[#[trigger] argument_register(k + 1)]
                == m.regs[argument_register(k)],
{
    let b = trampoline(nargs, at, body, receiver);
    if receiver {
        let n = min(nargs, 5);
        lemma_shift_len(n);
        let p = shift_args(n);
        let q = at + 3 * n;
        let d = le32(wrap32(body - (at + 3 * n + 7)));
        assert(d.len() == 4);
        assert(b == p + seq![0x31u8, 0xFF, 0xE8] + d + seq![0xC3u8]);
        assert(holds_at(c, at, p)) by {
            assert forall|j: int| 0 <= j < p.len() implies c[at + j] == #[trigger] p[j] by {
                assert(b[j] == p[j]);
            }
        }
        assert(b[3 * n] == 0x31 && b[3 * n + 1] == 0xFF && b[3 * n + 2] == 0xE8 && b[3 * n + 7]
            == 0xC3);
        assert(c[at + 3 * n] == 0x31 && c[at + (3 * n + 1)] == 0xFF && c[at + (3 * n + 2)] == 0xE8
            && c[at + (3 * n + 7)] == 0xC3);
        assert(holds_at(c, q + 3, d)) by {
            assert forall|j: int| 0 <= j < 4 implies c[q + 3 + j] == #[trigger] d[j] by {
                assert(b[3 * n + 3 + j] == d[j]);
                assert(c[at + (3 * n + 3 + j)] == b[3 * n + 3 + j]);
            }
        }
        let x = run_shift(u, c, at, n, m);
        decode_clear(c, q);
        let v = x.regs[7];
        assert(v ^ v == 0) by (bit_vector);
        let y = run_op(
            u,
            c,
            x,
            Op::Arith {
                f: Alu::Differ,
                wide: false,
                keep: true,
                to: Place::Reg(7),
                from: Place::Reg(7),
            },
            q + 2,
        );
        lemma_onward(u, c, m, x, y);
        decode_call(c, q + 2, body);
        assert forall|k: int| 0 <= k < n implies #[trigger] argument_register(k + 1) != 4
            && argument_register(k + 1) != 7 by {}
        assert(x.regs[4] == m.regs[4]);
        y
    } else {
        let d = le32(wrap32(body - (at + 5)));
        assert(d.len() == 4);
        assert(b[0] == 0xE8 && b[5] == 0xC3);
        assert(c[at + 0] == b[0] && c[at + 5] == b[5]);
        assert(holds_at(c, at + 1, d)) by {
            assert forall|j: int| 0 <= j < 4 implies c[at + 1 + j] == #[trigger] d[j] by {
                assert(b[1 + j] == d[j]);
                assert(c[at + (1 + j)] == b[1 + j]);
            }
        }
        decode_call(c, at, body);
        lemma_here(u, c, m);
        m
    }
}

proof fn lemma_entry_in(mc: McView, i: int, k: int)
    requires
        0 <= i < k <= mc.exports.len(),
    ensures
        ({
            let t = trampoline(
                mc.exports[i].2 as int,
                entry_vaddr(mc, i),
                body_vaddr(mc, i),
                takes_receiver(mc, i),
            );
            &&& entries_size(mc, i) + t.len() <= trampolines(mc, k).len()
            &&& forall|j: int|
                0 <= j < t.len() ==> trampolines(mc, k)[entries_size(mc, i) + j] == #[trigger] t[j]
        }),
    decreases k,
{
    let t = trampoline(
        mc.exports[i].2 as int,
        entry_vaddr(mc, i),
        body_vaddr(mc, i),
        takes_receiver(mc, i),
    );
    lemma_trampolines_len(mc, k - 1);
    lemma_trampolines_len(mc, k);
    lemma_entries_grow(mc, 0, i);
    trampoline_fits_its_room(
        mc.exports[k - 1].2 as int,
        entry_vaddr(mc, k - 1),
        body_vaddr(mc, k - 1),
        takes_receiver(mc, k - 1),
    );
    let before = trampolines(mc, k - 1);
    let e = entries_size(mc, i);
    if i < k - 1 {
        lemma_entry_in(mc, i, k - 1);
        assert forall|j: int| 0 <= j < t.len() implies trampolines(mc, k)[e + j]
            == #[trigger] t[j] by {
            assert(before[e + j] == t[j]);
        }
    }
}

/// The symbol of an export with a receiver leads, in the image as it is
/// loaded, to a call of the function that the export names, with zero for the
/// receiver and the arguments behind it.
pub proof fn exports_lead_to_their_functions(
    u: Fpu,
    mc: McView,
    version: u16,
    i: int,
    m: Cpu,
) -> (y: Cpu)
    requires
        shared_ready(mc),
        windows_inside(mc),
        0 <= i < mc.exports.len(),
        i < mc.export_takes_receiver.len() ==> mc.export_takes_receiver[i],
        mc.fn_bases[mc.exports[i].1 as int] <= mc.code.len(),
        image_of(mc, version).len() < 0x3FFF_0000,
        m.ip == st_value(image_of(mc, version), i),
    ensures
        ({
            let img = image_of(mc, version);
            let next = decode(img, y.ip).1;
            &&& reaches(u, img, m, y)
            &&& decode(img, y.ip).0 is Call
            &&& next + decode(img, y.ip).0->Call_0 == header_at(img, 5)
                + mc.fn_bases[mc.exports[i].1 as int]
            &&& decode(img, next).0 is Ret
            &&& y.mem == m.mem
            &&& y.regs[4] == m.regs[4]
            &&& y.regs[7] == 0
            &&& forall|k: int|
                0 <= k < mc.exports[i].2 && k < 5 ==> y.regs[#[trigger] argument_register(k + 1)]
                    == m.regs[argument_register(k)]
        }),
{
    let img = image_of(mc, version);
    let nargs = mc.exports[i].2 as int;
    let at = entry_vaddr(mc, i);
    let body = body_vaddr(mc, i);
    lemma_entry_stands(mc, version, i);
    lemma_entry_symbol(mc, version, i);
    entries_call_their_bodies(u, img, nargs, at, body, true, m)
}

#[verifier::spinoff_prover]
#[verifier::rlimit(40)]
proof fn lemma_entry_symbol(mc: McView, version: u16, i: int)
    requires
        shared_ready(mc),
        windows_inside(mc),
        0 <= i < mc.exports.len(),
        takes_receiver(mc, i),
        image_of(mc, version).len() < 0x3FFF_0000,
        0 <= entry_vaddr(mc, i) <= image_of(mc, version).len(),
    ensures
        st_value(image_of(mc, version), i) == entry_vaddr(mc, i),
        header_at(image_of(mc, version), 5) == CODE_BASE,
{
    lemma_segments(mc, version);
    lemma_symbol_value(mc, version, i);
}

proof fn lemma_inside(img: Seq<u8>, lo: int, hi: int, all: Seq<u8>, e: int, t: Seq<u8>)
    requires
        0 <= lo <= hi <= img.len(),
        img.subrange(lo, hi) == all,
        0 <= e,
        e + t.len() <= all.len(),
        forall|j: int| 0 <= j < t.len() ==> all[e + j] == #[trigger] t[j],
    ensures
        holds_at(img, lo + e, t),
{
    assert forall|j: int| 0 <= j < t.len() implies img[lo + e + j] == #[trigger] t[j] by {
        assert(all[e + j] == t[j]);
        assert(img.subrange(lo, hi)[e + j] == img[lo + (e + j)]);
    }
}

#[verifier::spinoff_prover]
#[verifier::rlimit(40)]
proof fn lemma_entry_stands(mc: McView, version: u16, i: int)
    requires
        shared_ready(mc),
        windows_inside(mc),
        0 <= i < mc.exports.len(),
    ensures
        ({
            let t = trampoline(
                mc.exports[i].2 as int,
                entry_vaddr(mc, i),
                body_vaddr(mc, i),
                takes_receiver(mc, i),
            );
            &&& holds_at(image_of(mc, version), entry_vaddr(mc, i), t)
            &&& 0 <= entry_vaddr(mc, i)
            &&& entry_vaddr(mc, i) + t.len() <= image_of(mc, version).len()
            &&& mc.exports[i].1 < mc.fn_bases.len()
            &&& CODE_BASE + mc.code.len() <= image_of(mc, version).len()
        }),
{
    let img = image_of(mc, version);
    let l = layout_of(mc);
    let n = mc.exports.len() as int;
    let t = trampoline(
        mc.exports[i].2 as int,
        entry_vaddr(mc, i),
        body_vaddr(mc, i),
        takes_receiver(mc, i),
    );
    image_holds_its_pieces(mc, version);
    lemma_layout(mc);
    lemma_entries_grow(mc, 0, i);
    lemma_trampolines_len(mc, n);
    lemma_entry_in(mc, i, n);
    let start = (CODE_BASE + mc.code.len()) as int;
    lemma_inside(img, start, l.rx_end, trampolines(mc, n), entries_size(mc, i), t);
}

} // verus!
