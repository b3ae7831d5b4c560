//! The shape of the places that emitted code leaves open.
//!
//! Every address that a function takes is a `movabs` into a register that
//! goes by the symbol, with eight zero bytes for the address; every call is a
//! `call` with four zero bytes for the distance. The writer of shared objects
//! relies on these shapes when it turns the first kind into loads.
use crate::bytes::{le32, le64, put_at};
use crate::ir::{
    BinOp, Block, BlockId, CmpOp, FBinOp, FCmpOp, Instr, IrFunction, Program, Terminator, VReg,
};
use crate::target::{Reloc, RelocKind, Section, Sym};
use crate::x86::emit::{extends, modrm, rex, CallTarget, Emit, Uses, RAX, RCX, RSI};
use crate::x86::encode_x64::{
    call_relocs, code_with_helpers, context_of, exc_offset, exc_relocs, functions_code, helper_reloc,
    lemma_helpers_behind, lemma_relocs_fit, machine_code, program_encodable, program_uses_exc,
    relocs_fit, relocs_of, row_relocs, sites_fit, vtable_offset, vtable_relocs,
};
use crate::x86::function::{
    block_encodable, blocks_code, branch_distance, function_code, function_encodable, instrs_code,
    laid_out, patched, pop_regs, prologue, push_regs, savers, store_params, term_code, Laid,
};
use crate::x86::instrs::{
    argv_code, argv_copy, argv_head, argv_object, bin_code, clamp, cleanup, compare_code,
    encodable, fbin_code, fcompare_code, home, instr_code, is_arith, is_call_instr, is_io,
    is_memory, is_runtime, load_args, push_args, Cx,
};
use crate::x86::regalloc::{allocation, Loc, Phys, POOL};
use crate::x86::runtime::Runtime;
use crate::x86::shlib::window_register;
use vstd::prelude::*;

verus! {

/// Whether code takes the address of `sym` into register `reg`: strings into
/// `rsi`, vtable rows and static fields into `rcx`, imports and the stack
/// pointer's slot into `rax`.
pub open spec fn carries(sym: Sym, reg: u8) -> bool {
    match sym {
        Sym::String(_) => reg == RSI,
        Sym::VtableOff(_) => reg == RCX,
        Sym::Static(_) => reg == RCX,
        Sym::Import(_) => reg == RAX,
        Sym::ArgvRsp => reg == RAX,
        _ => false,
    }
}

/// Whether the eight bytes at `site` are the immediate of a `movabs reg`, and
/// zero.
pub open spec fn is_window(code: Seq<u8>, site: int, reg: u8) -> bool {
    &&& 2 <= site
    &&& site + 8 <= code.len()
    &&& code[site - 2] == 0x48
    &&& code[site - 1] == 0xB8 + reg
    &&& forall|j: int| site <= j < site + 8 ==> #[trigger] code[j] == 0
}

/// Whether the four bytes at `site` are the distance of a `call`, and zero.
pub open spec fn is_call(code: Seq<u8>, site: int) -> bool {
    &&& 1 <= site
    &&& site + 4 <= code.len()
    &&& code[site - 1] == 0xE8
    &&& forall|j: int| site <= j < site + 4 ==> #[trigger] code[j] == 0
}

/// Whether `r` is an address site of its shape.
pub open spec fn window_ok(code: Seq<u8>, r: Reloc) -> bool {
    &&& r.kind == RelocKind::Abs64
    &&& r.section == Section::Code
    &&& exists|reg: u8| #[trigger] carries(r.sym, reg) && is_window(code, r.site as int, reg)
}

/// Whether what `sym` stands for is in the program.
pub open spec fn addressed(cx: Cx, sym: Sym) -> bool {
    match sym {
        Sym::String(off) => off <= u32::MAX,
        Sym::VtableOff(off) => cx.vtable_offsets.contains(off),
        Sym::Static(i) => cx.statics > 0 ==> i < cx.statics,
        _ => true,
    }
}

/// Whether `s` came from `base` by appending, with every open site since of
/// its shape, one address site behind the other, for symbols that exist.
#[verifier::opaque]
spec fn shaped(cx: Cx, base: Emit, s: Emit) -> bool {
    &&& base.relocs.len() <= s.relocs.len()
    &&& base.calls.len() <= s.calls.len()
    &&& extends(base.code, s.code)
    &&& forall|k: int| 0 <= k < base.relocs.len() ==> #[trigger] s.relocs[k] == base.relocs[k]
    &&& forall|k: int| 0 <= k < base.calls.len() ==> #[trigger] s.calls[k] == base.calls[k]
    &&& s.code.len() <= usize::MAX ==> {
        &&& forall|k: int|
            base.relocs.len() <= k < s.relocs.len() ==> window_ok(s.code, #[trigger] s.relocs[k])
                && addressed(cx, s.relocs[k].sym) && base.code.len() + 2 <= s.relocs[k].site
        &&& forall|j: int, k: int|
            base.relocs.len() <= j < k < s.relocs.len() ==> (#[trigger] s.relocs[j]).site + 10 <= (
            #[trigger] s.relocs[k]).site
        &&& forall|k: int|
            base.calls.len() <= k < s.calls.len() ==> is_call(
                s.code,
                (#[trigger] s.calls[k]).0 as int,
            ) && base.code.len() + 1 <= s.calls[k].0
    }
}

proof fn lemma_window_stays(a: Seq<u8>, b: Seq<u8>, r: Reloc)
    requires
        extends(a, b),
        window_ok(a, r),
    ensures
        window_ok(b, r),
{
    let reg = choose|reg: u8| #[trigger] carries(r.sym, reg) && is_window(a, r.site as int, reg);
    assert(is_window(b, r.site as int, reg)) by {
        assert forall|j: int| r.site <= j < r.site + 8 implies #[trigger] b[j] == 0 by {
            assert(a[j] == 0);
        }
    }
}

proof fn lemma_call_stays(a: Seq<u8>, b: Seq<u8>, site: int)
    requires
        extends(a, b),
        is_call(a, site),
    ensures
        is_call(b, site),
{
    assert forall|j: int| site <= j < site + 4 implies #[trigger] b[j] == 0 by {
        assert(a[j] == 0);
    }
}

proof fn lemma_start(cx: Cx, s: Emit)
    ensures
        shaped(cx, s, s),
{
    reveal(shaped);
}

broadcast proof fn lemma_raw(cx: Cx, base: Emit, s: Emit, b: Seq<u8>)
    requires
        shaped(cx, base, s),
    ensures
        #[trigger] shaped(cx, base, s.raw(b)),
{
    reveal(shaped);
    let t = s.raw(b);
    assert(extends(s.code, t.code));
    if t.code.len() <= usize::MAX {
        assert forall|k: int| base.relocs.len() <= k < t.relocs.len() implies window_ok(
            t.code,
            #[trigger] t.relocs[k],
        ) by {
            lemma_window_stays(s.code, t.code, s.relocs[k]);
        }
        assert forall|k: int| base.calls.len() <= k < t.calls.len() implies is_call(
            t.code,
            (#[trigger] t.calls[k]).0 as int,
        ) by {
            lemma_call_stays(s.code, t.code, s.calls[k].0 as int);
        }
    }
}

broadcast proof fn lemma_window(cx: Cx, base: Emit, s: Emit, reg: u8, sym: Sym)
    requires
        shaped(cx, base, s),
        reg < 8,
        carries(sym, reg),
        addressed(cx, sym),
    ensures
        #[trigger] shaped(cx, base, s.window(reg, sym)),
{
    reveal(shaped);
    let t = s.window(reg, sym);
    let n = s.code.len() as int;
    assert(extends(s.code, t.code));
    assert(le64(0) =~= seq![0u8, 0, 0, 0, 0, 0, 0, 0]);
    assert(t.code =~= s.code + seq![0x48u8, (0xB8 + reg) as u8] + le64(0));
    if t.code.len() <= usize::MAX {
        assert(t.relocs.last().site == n + 2);
        assert(is_window(t.code, n + 2, reg));
        assert(window_ok(t.code, t.relocs.last()));
        assert forall|k: int| base.relocs.len() <= k < t.relocs.len() implies window_ok(
            t.code,
            #[trigger] t.relocs[k],
        ) && addressed(cx, t.relocs[k].sym) && base.code.len() + 2 <= t.relocs[k].site by {
            if k < s.relocs.len() {
                lemma_window_stays(s.code, t.code, s.relocs[k]);
                assert(window_ok(s.code, s.relocs[k]));
            }
        }
        assert forall|j: int, k: int|
            base.relocs.len() <= j < k < t.relocs.len() implies (#[trigger] t.relocs[j]).site + 10
            <= (#[trigger] t.relocs[k]).site by {
            assert(window_ok(s.code, s.relocs[j]));
        }
        assert forall|k: int| base.calls.len() <= k < t.calls.len() implies is_call(
            t.code,
            (#[trigger] t.calls[k]).0 as int,
        ) by {
            lemma_call_stays(s.code, t.code, s.calls[k].0 as int);
        }
    }
}

broadcast proof fn lemma_call(cx: Cx, base: Emit, s: Emit, to: CallTarget)
    requires
        shaped(cx, base, s),
    ensures
        #[trigger] shaped(cx, base, s.call(to)),
{
    reveal(shaped);
    let t = s.call(to);
    let n = s.code.len() as int;
    assert(extends(s.code, t.code));
    assert(le32(0) =~= seq![0u8, 0, 0, 0]);
    assert(t.code =~= s.code + seq![0xE8u8] + le32(0));
    if t.code.len() <= usize::MAX {
        assert(t.calls.last().0 == n + 1);
        assert(is_call(t.code, n + 1));
        assert forall|k: int| base.relocs.len() <= k < t.relocs.len() implies window_ok(
            t.code,
            #[trigger] t.relocs[k],
        ) by {
            lemma_window_stays(s.code, t.code, s.relocs[k]);
        }
        assert forall|k: int| base.calls.len() <= k < t.calls.len() implies is_call(
            t.code,
            (#[trigger] t.calls[k]).0 as int,
        ) && base.code.len() + 1 <= t.calls[k].0 by {
            if k < s.calls.len() {
                lemma_call_stays(s.code, t.code, s.calls[k].0 as int);
            }
        }
    }
}

broadcast proof fn lemma_with(cx: Cx, base: Emit, s: Emit, uses: Uses)
    requires
        shaped(cx, base, s),
    ensures
        #[trigger] shaped(cx, base, s.with(uses)),
{
    reveal(shaped);
}

broadcast group appends {
    lemma_raw,
    lemma_window,
    lemma_call,
    lemma_with,
}

broadcast proof fn lemma_get(cx: Cx, base: Emit, s: Emit, into: u8, l: Loc)
    requires
        shaped(cx, base, s),
    ensures
        #[trigger] shaped(cx, base, s.get(into, l)),
{
    broadcast use appends;
}

broadcast proof fn lemma_put(cx: Cx, base: Emit, s: Emit, from: u8, l: Loc)
    requires
        shaped(cx, base, s),
    ensures
        #[trigger] shaped(cx, base, s.put(from, l)),
{
    broadcast use appends;
}

broadcast proof fn lemma_push_args(
    cx: Cx,
    base: Emit,
    s: Emit,
    loc: Seq<Loc>,
    args: Seq<VReg>,
    lo: int,
    hi: int,
)
    requires
        shaped(cx, base, s),
    ensures
        #[trigger] shaped(cx, base, push_args(s, loc, args, lo, hi)),
    decreases hi - lo,
{
    broadcast use {appends, lemma_get};
    if lo < hi {
        lemma_push_args(
            cx,
            base,
            s.get(RAX, home(loc, args[hi - 1])).raw(seq![0x50]),
            loc,
            args,
            lo,
            hi - 1,
        );
    }
}

broadcast proof fn lemma_load_args(
    cx: Cx,
    base: Emit,
    s: Emit,
    loc: Seq<Loc>,
    args: Seq<VReg>,
    first: int,
    n: int,
)
    requires
        shaped(cx, base, s),
    ensures
        #[trigger] shaped(cx, base, load_args(s, loc, args, first, n)),
    decreases n,
{
    broadcast use {appends, lemma_get};
    if n > 0 {
        lemma_load_args(cx, base, s, loc, args, first, n - 1);
    }
}

broadcast proof fn lemma_cleanup(cx: Cx, base: Emit, s: Emit, n: int)
    requires
        shaped(cx, base, s),
    ensures
        #[trigger] shaped(cx, base, cleanup(s, n)),
{
    broadcast use appends;
}

broadcast proof fn lemma_argv(cx: Cx, base: Emit, s: Emit, d: Loc)
    requires
        shaped(cx, base, s),
    ensures
        #[trigger] shaped(cx, base, argv_code(s, d)),
{
    broadcast use {appends, lemma_put};
    assert(shaped(cx, base, argv_head(s)));
    let t = argv_head(s).raw(
        seq![rex(true, true, false), 0x3B, modrm(0, 3, 7)],
    ).raw(seq![0x0F, 0x8D]).imm32(0x71);
    assert(shaped(cx, base, t));
    assert(shaped(cx, base, argv_object(t)));
    assert(shaped(cx, base, argv_copy(argv_object(t))));
}

broadcast proof fn lemma_bin(cx: Cx, base: Emit, s: Emit, op: BinOp, d: Loc, a: Loc, b: Loc)
    requires
        shaped(cx, base, s),
    ensures
        #[trigger] shaped(cx, base, bin_code(s, op, d, a, b)),
{
    broadcast use {appends, lemma_get, lemma_put};
}

broadcast proof fn lemma_compare(cx: Cx, base: Emit, s: Emit, op: CmpOp, d: Loc, a: Loc, b: Loc)
    requires
        shaped(cx, base, s),
    ensures
        #[trigger] shaped(cx, base, compare_code(s, op, d, a, b)),
{
    broadcast use {appends, lemma_get, lemma_put};
}

broadcast proof fn lemma_fbin(cx: Cx, base: Emit, s: Emit, op: FBinOp, d: Loc, a: Loc, b: Loc)
    requires
        shaped(cx, base, s),
    ensures
        #[trigger] shaped(cx, base, fbin_code(s, op, d, a, b)),
{
    broadcast use {appends, lemma_get, lemma_put};
}

broadcast proof fn lemma_fcompare(cx: Cx, base: Emit, s: Emit, op: FCmpOp, d: Loc, a: Loc, b: Loc)
    requires
        shaped(cx, base, s),
    ensures
        #[trigger] shaped(cx, base, fcompare_code(s, op, d, a, b)),
{
    broadcast use {appends, lemma_get, lemma_put};
}

proof fn lemma_arith(cx: Cx, base: Emit, s: Emit, loc: Seq<Loc>, i: Instr)
    requires
        shaped(cx, base, s),
        is_arith(i),
        encodable(cx, i),
    ensures
        shaped(cx, base, instr_code(s, cx, loc, i)),
{
    match i {
        Instr::Bin { dst, op, a, b } => lemma_bin(
            cx,
            base,
            s,
            op,
            home(loc, dst),
            home(loc, a),
            home(loc, b),
        ),
        Instr::Cmp { dst, op, a, b } => lemma_compare(
            cx,
            base,
            s,
            op,
            home(loc, dst),
            home(loc, a),
            home(loc, b),
        ),
        Instr::FBin { dst, op, a, b } => lemma_fbin(
            cx,
            base,
            s,
            op,
            home(loc, dst),
            home(loc, a),
            home(loc, b),
        ),
        Instr::FCmp { dst, op, a, b } => lemma_fcompare(
            cx,
            base,
            s,
            op,
            home(loc, dst),
            home(loc, a),
            home(loc, b),
        ),
        _ => {
            broadcast use {appends, lemma_get, lemma_put};

        },
    }
}

proof fn lemma_calls(cx: Cx, base: Emit, s: Emit, loc: Seq<Loc>, i: Instr)
    requires
        shaped(cx, base, s),
        is_call_instr(i),
        encodable(cx, i),
    ensures
        shaped(cx, base, instr_code(s, cx, loc, i)),
{
    broadcast use {appends, lemma_get, lemma_put, lemma_push_args, lemma_load_args, lemma_cleanup};

}

proof fn lemma_memory(cx: Cx, base: Emit, s: Emit, loc: Seq<Loc>, i: Instr)
    requires
        shaped(cx, base, s),
        is_memory(i),
        encodable(cx, i),
    ensures
        shaped(cx, base, instr_code(s, cx, loc, i)),
{
    broadcast use {appends, lemma_get, lemma_put};

    if let Instr::VTableAddr { dst, row } = i {
        let k = clamp(row as int, cx.vtable_offsets.len() as int);
        let sym = Sym::VtableOff(cx.vtable_offsets[k]);
        assert(cx.vtable_offsets.contains(cx.vtable_offsets[k]));
        lemma_window(cx, base, s, RCX, sym);
    }
    if let Instr::LoadStaticAddr { dst, idx } = i {
        lemma_window(cx, base, s, RCX, Sym::Static(clamp(idx as int, cx.statics) as usize));
    }
}

proof fn lemma_io(cx: Cx, base: Emit, s: Emit, loc: Seq<Loc>, i: Instr)
    requires
        shaped(cx, base, s),
        is_io(i),
        encodable(cx, i),
    ensures
        shaped(cx, base, instr_code(s, cx, loc, i)),
{
    if let Instr::BuildArgv { dst } = i {
        let uses = Uses { alloc: true, ..s.uses };
        lemma_with(cx, base, s, uses);
        lemma_argv(cx, base, s.with(uses), home(loc, dst));
    } else {
        broadcast use {appends, lemma_get, lemma_put};

    }
}

proof fn lemma_runtime(cx: Cx, base: Emit, s: Emit, loc: Seq<Loc>, i: Instr)
    requires
        shaped(cx, base, s),
        is_runtime(i),
        encodable(cx, i),
    ensures
        shaped(cx, base, instr_code(s, cx, loc, i)),
{
    broadcast use {appends, lemma_get, lemma_put};

}

/// Every instruction leaves its sites in their shapes.
proof fn lemma_instr(cx: Cx, base: Emit, s: Emit, loc: Seq<Loc>, i: Instr)
    requires
        shaped(cx, base, s),
        encodable(cx, i),
    ensures
        shaped(cx, base, instr_code(s, cx, loc, i)),
{
    if is_arith(i) {
        lemma_arith(cx, base, s, loc, i);
    } else if is_call_instr(i) {
        lemma_calls(cx, base, s, loc, i);
    } else if is_memory(i) {
        lemma_memory(cx, base, s, loc, i);
    } else if is_io(i) {
        lemma_io(cx, base, s, loc, i);
    } else if is_runtime(i) {
        lemma_runtime(cx, base, s, loc, i);
    }
}

/// Appending is transitive.
proof fn lemma_onward(cx: Cx, a: Emit, b: Emit, c: Emit)
    requires
        shaped(cx, a, b),
        shaped(cx, b, c),
    ensures
        shaped(cx, a, c),
{
    reveal(shaped);
    assert forall|i: int| 0 <= i < a.code.len() implies #[trigger] c.code[i] == a.code[i] by {
        assert(b.code[i] == a.code[i]);
    }
    assert forall|k: int| 0 <= k < a.relocs.len() implies #[trigger] c.relocs[k] == a.relocs[k] by {
        assert(b.relocs[k] == a.relocs[k]);
    }
    assert forall|k: int| 0 <= k < a.calls.len() implies #[trigger] c.calls[k] == a.calls[k] by {
        assert(b.calls[k] == a.calls[k]);
    }
    if c.code.len() <= usize::MAX {
        assert forall|k: int| a.relocs.len() <= k < c.relocs.len() implies window_ok(
            c.code,
            #[trigger] c.relocs[k],
        ) && addressed(cx, c.relocs[k].sym) && a.code.len() + 2 <= c.relocs[k].site by {
            if k < b.relocs.len() {
                assert(c.relocs[k] == b.relocs[k]);
                lemma_window_stays(b.code, c.code, b.relocs[k]);
            }
        }
        assert forall|j: int, k: int|
            a.relocs.len() <= j < k < c.relocs.len() implies (#[trigger] c.relocs[j]).site + 10 <= (
        #[trigger] c.relocs[k]).site by {
            if j < b.relocs.len() {
                assert(c.relocs[j] == b.relocs[j]);
                assert(window_ok(b.code, b.relocs[j]));
            }
            if k < b.relocs.len() {
                assert(c.relocs[k] == b.relocs[k]);
            }
        }
        assert forall|k: int| a.calls.len() <= k < c.calls.len() implies is_call(
            c.code,
            (#[trigger] c.calls[k]).0 as int,
        ) && a.code.len() + 1 <= c.calls[k].0 by {
            if k < b.calls.len() {
                assert(c.calls[k] == b.calls[k]);
                lemma_call_stays(b.code, c.code, b.calls[k].0 as int);
            }
        }
    }
}

/// Whether the branch sites of `l` lie behind `base`, and clear of the other
/// sites since.
#[verifier::opaque]
spec fn apart(base: Emit, l: Laid) -> bool {
    l.s.code.len() <= usize::MAX ==> {
        &&& forall|j: int|
            0 <= j < l.jumps.len() ==> base.code.len() <= (#[trigger] l.jumps[j]).0
                && l.jumps[j].0 + 4 <= l.s.code.len()
        &&& forall|j: int, k: int|
            #![trigger l.jumps[j], l.s.relocs[k]]
            0 <= j < l.jumps.len() && base.relocs.len() <= k < l.s.relocs.len()
                ==> l.s.relocs[k].site + 8 <= l.jumps[j].0 || l.jumps[j].0 + 6
                <= l.s.relocs[k].site
        &&& forall|j: int, k: int|
            #![trigger l.jumps[j], l.s.calls[k]]
            0 <= j < l.jumps.len() && base.calls.len() <= k < l.s.calls.len()
                ==> l.s.calls[k].0 + 4 <= l.jumps[j].0 || l.jumps[j].0 + 5 <= l.s.calls[k].0
    }
}

proof fn lemma_then(cx: Cx, base: Emit, l: Laid, t: Emit)
    requires
        shaped(cx, base, l.s),
        apart(base, l),
        shaped(cx, l.s, t),
    ensures
        shaped(cx, base, t),
        apart(base, l.then_emit(t)),
{
    lemma_onward(cx, base, l.s, t);
    reveal(shaped);
    reveal(apart);
    if t.code.len() <= usize::MAX {
        assert forall|j: int, k: int|
            #![trigger l.jumps[j], t.relocs[k]]
            0 <= j < l.jumps.len() && base.relocs.len() <= k < t.relocs.len() implies t.relocs[k].site
            + 8 <= l.jumps[j].0 || l.jumps[j].0 + 6 <= t.relocs[k].site by {
            if k < l.s.relocs.len() {
                assert(t.relocs[k] == l.s.relocs[k]);
            }
        }
        assert forall|j: int, k: int|
            #![trigger l.jumps[j], t.calls[k]]
            0 <= j < l.jumps.len() && base.calls.len() <= k < t.calls.len() implies t.calls[k].0 + 4
            <= l.jumps[j].0 || l.jumps[j].0 + 5 <= t.calls[k].0 by {
            if k < l.s.calls.len() {
                assert(t.calls[k] == l.s.calls[k]);
            }
        }
    }
}

proof fn lemma_jump(cx: Cx, base: Emit, l: Laid, op: Seq<u8>, to: BlockId)
    requires
        shaped(cx, base, l.s),
        apart(base, l),
    ensures
        shaped(cx, base, l.jump(op, to).s),
        apart(base, l.jump(op, to)),
{
    let m = l.jump(op, to);
    lemma_raw(cx, base, l.s, op);
    lemma_raw(cx, base, l.s.raw(op), le32(0));
    reveal(shaped);
    reveal(apart);
    if m.s.code.len() <= usize::MAX {
        assert forall|j: int, k: int|
            #![trigger m.jumps[j], m.s.relocs[k]]
            0 <= j < m.jumps.len() && base.relocs.len() <= k < m.s.relocs.len() implies m.s.relocs[k].site
            + 8 <= m.jumps[j].0 || m.jumps[j].0 + 6 <= m.s.relocs[k].site by {
            assert(window_ok(l.s.code, l.s.relocs[k]));
            if j < l.jumps.len() {
                assert(m.jumps[j] == l.jumps[j]);
            }
        }
        assert forall|j: int, k: int|
            #![trigger m.jumps[j], m.s.calls[k]]
            0 <= j < m.jumps.len() && base.calls.len() <= k < m.s.calls.len() implies m.s.calls[k].0
            + 4 <= m.jumps[j].0 || m.jumps[j].0 + 5 <= m.s.calls[k].0 by {
            assert(is_call(l.s.code, l.s.calls[k].0 as int));
            if j < l.jumps.len() {
                assert(m.jumps[j] == l.jumps[j]);
            }
        }
    }
}

broadcast proof fn lemma_push_regs(cx: Cx, base: Emit, s: Emit, regs: Seq<Phys>, n: int)
    requires
        shaped(cx, base, s),
    ensures
        #[trigger] shaped(cx, base, push_regs(s, regs, n)),
    decreases n,
{
    broadcast use appends;

    if n > 0 {
        lemma_push_regs(cx, base, s, regs, n - 1);
    }
}

broadcast proof fn lemma_pop_regs(cx: Cx, base: Emit, s: Emit, regs: Seq<Phys>, n: int)
    requires
        shaped(cx, base, s),
    ensures
        #[trigger] shaped(cx, base, pop_regs(s, regs, n)),
    decreases n,
{
    broadcast use appends;

    if n > 0 {
        let r = regs[n - 1].number();
        lemma_pop_regs(
            cx,
            base,
            s.raw(seq![rex(true, false, r >= 8), (0x58 + r % 8) as u8]),
            regs,
            n - 1,
        );
    }
}

broadcast proof fn lemma_store_params(cx: Cx, base: Emit, s: Emit, loc: Seq<Loc>, first: int, n: int)
    requires
        shaped(cx, base, s),
    ensures
        #[trigger] shaped(cx, base, store_params(s, loc, first, n)),
    decreases n,
{
    broadcast use lemma_put;

    if n > 0 {
        lemma_store_params(cx, base, s, loc, first, n - 1);
    }
}

proof fn lemma_instrs(cx: Cx, base: Emit, s: Emit, loc: Seq<Loc>, instrs: Seq<Instr>, n: int)
    requires
        shaped(cx, base, s),
        n <= instrs.len(),
        forall|k: int| 0 <= k < instrs.len() ==> encodable(cx, #[trigger] instrs[k]),
    ensures
        shaped(cx, base, instrs_code(s, cx, loc, instrs, n)),
    decreases n,
{
    if n > 0 {
        lemma_instrs(cx, base, s, loc, instrs, n - 1);
        lemma_instr(cx, base, instrs_code(s, cx, loc, instrs, n - 1), loc, instrs[n - 1]);
    }
}

proof fn lemma_term(cx: Cx, base: Emit, l: Laid, loc: Seq<Loc>, regs: Seq<Phys>, t: Terminator)
    requires
        shaped(cx, base, l.s),
        apart(base, l),
    ensures
        shaped(cx, base, term_code(l, loc, regs, t).s),
        apart(base, term_code(l, loc, regs, t)),
{
    broadcast use {appends, lemma_get, lemma_pop_regs};

    lemma_start(cx, l.s);
    let s = l.s;
    match t {
        Terminator::Branch { cond: None, if_true, .. } => {
            lemma_jump(cx, base, l, seq![0xE9], if_true);
        },
        Terminator::Branch { cond: Some(c), if_true, if_false } => {
            let tested = s.get(RAX, home(loc, c)).raw(
                seq![
                    rex(true, false, false),
                    0x85,
                    modrm(3, RAX, RAX),
                ],
            );
            assert(shaped(cx, s, tested));
            lemma_then(cx, base, l, tested);
            let m = l.then_emit(tested);
            lemma_jump(cx, base, m, seq![0x0F, 0x85], if_true);
            lemma_jump(cx, base, m.jump(seq![0x0F, 0x85], if_true), seq![0xE9], if_false);
        },
        _ => {
            let u = term_code(l, loc, regs, t);
            assert(shaped(cx, s, u.s));
            lemma_then(cx, base, l, u.s);
            assert(u == l.then_emit(u.s));
        },
    }
}

proof fn lemma_blocks(
    cx: Cx,
    base: Emit,
    s: Emit,
    loc: Seq<Loc>,
    regs: Seq<Phys>,
    blocks: Seq<Block>,
    n: int,
)
    requires
        shaped(cx, base, s),
        n <= blocks.len(),
        forall|j: int, k: int|
            0 <= j < blocks.len() && 0 <= k < blocks[j].instrs@.len() ==> encodable(
                cx,
                #[trigger] blocks[j].instrs@[k],
            ),
    ensures
        shaped(cx, base, blocks_code(s, cx, loc, regs, blocks, n).s),
        apart(base, blocks_code(s, cx, loc, regs, blocks, n)),
    decreases n,
{
    if n <= 0 {
        reveal(apart);
    } else {
        let l = blocks_code(s, cx, loc, regs, blocks, n - 1);
        let b = blocks[n - 1];
        lemma_blocks(cx, base, s, loc, regs, blocks, n - 1);
        let started = Laid { starts: l.starts.push(l.s.code.len() as usize), ..l };
        assert(apart(base, started)) by {
            reveal(apart);
        }
        let t = instrs_code(l.s, cx, loc, b.instrs@, b.instrs@.len() as int);
        lemma_start(cx, l.s);
        lemma_instrs(cx, l.s, l.s, loc, b.instrs@, b.instrs@.len() as int);
        lemma_then(cx, base, started, t);
        lemma_term(cx, base, started.then_emit(t), loc, regs, b.term);
    }
}

proof fn lemma_prologue(s: Emit, cx: Cx, f: IrFunction)
    ensures
        shaped(cx, s, prologue(s, cx, f)),
{
    broadcast use {appends, lemma_put, lemma_push_regs, lemma_store_params};

    lemma_start(cx, s);
}

/// Filling in branch sites changes no other site.
proof fn lemma_patched(cx: Cx, base: Emit, l: Laid, n: int)
    requires
        shaped(cx, base, l.s),
        apart(base, l),
        l.s.code.len() <= usize::MAX,
        0 <= n <= l.jumps.len(),
    ensures
        shaped(cx, base, (Emit { code: patched(l.s.code, l.starts, l.jumps, n), ..l.s })),
        patched(l.s.code, l.starts, l.jumps, n).len() == l.s.code.len(),
    decreases n,
{
    if n <= 0 {
        assert((Emit { code: patched(l.s.code, l.starts, l.jumps, n), ..l.s }) == l.s);
    } else {
        lemma_patched(cx, base, l, n - 1);
        reveal(shaped);
        reveal(apart);
        let a = patched(l.s.code, l.starts, l.jumps, n - 1);
        let (site, to) = l.jumps[n - 1];
        let part = le32(branch_distance(site, l.starts[to as int]));
        assert(part.len() == 4);
        let b = put_at(a, site as int, part);
        assert(extends(base.code, b));
        assert forall|k: int| base.relocs.len() <= k < l.s.relocs.len() implies window_ok(
            b,
            #[trigger] l.s.relocs[k],
        ) by {
            let r = l.s.relocs[k];
            assert(l.s.relocs[k].site + 8 <= l.jumps[n - 1].0 || l.jumps[n - 1].0 + 6
                <= l.s.relocs[k].site);
            assert(window_ok(a, r));
            let reg = choose|reg: u8| #[trigger]
                carries(r.sym, reg) && is_window(a, r.site as int, reg);
            assert(is_window(b, r.site as int, reg)) by {
                assert forall|j: int| r.site <= j < r.site + 8 implies #[trigger] b[j] == 0 by {
                    assert(a[j] == 0);
                }
            }
        }
        assert forall|k: int| base.calls.len() <= k < l.s.calls.len() implies is_call(
            b,
            (#[trigger] l.s.calls[k]).0 as int,
        ) by {
            let at = l.s.calls[k].0;
            assert(l.s.calls[k].0 + 4 <= l.jumps[n - 1].0 || l.jumps[n - 1].0 + 5
                <= l.s.calls[k].0);
            assert(is_call(a, at as int));
            assert forall|j: int| at <= j < at + 4 implies #[trigger] b[j] == 0 by {
                assert(a[j] == 0);
            }
        }
    }
}

proof fn lemma_function(s: Emit, cx: Cx, exc: bool, f: IrFunction)
    requires
        function_encodable(cx, exc, f),
    ensures
        function_code(s, cx, f).code.len() <= usize::MAX ==> shaped(cx, s, function_code(s, cx, f)),
        s.code.len() <= function_code(s, cx, f).code.len(),
{
    reveal(function_code);
    reveal(function_encodable);
    reveal(laid_out);
    assert forall|j: int, k: int|
        0 <= j < f.blocks@.len() && 0 <= k < f.blocks@[j].instrs@.len() implies encodable(
        cx,
        #[trigger] f.blocks@[j].instrs@[k],
    ) by {
        assert(block_encodable(cx, exc, f.blocks@[j], f.vregs as int));
    }
    let loc = allocation(f).loc;
    let regs = savers(loc, POOL@.len() as nat);
    lemma_prologue(s, cx, f);
    lemma_blocks(cx, s, prologue(s, cx, f), loc, regs, f.blocks@, f.blocks@.len() as int);
    let l = laid_out(s, cx, f);
    lemma_patched_len(l.s.code, l.starts, l.jumps, l.jumps.len() as int);
    assert(s.code.len() <= l.s.code.len()) by {
        reveal(shaped);
    }
    if l.s.code.len() <= usize::MAX {
        lemma_patched(cx, s, l, l.jumps.len() as int);
    }
}

proof fn lemma_patched_len(code: Seq<u8>, starts: Seq<usize>, jumps: Seq<(usize, BlockId)>, n: int)
    ensures
        patched(code, starts, jumps, n).len() == code.len(),
    decreases n,
{
    if n > 0 {
        lemma_patched_len(code, starts, jumps, n - 1);
    }
}

proof fn lemma_functions(p: Program, rt: Runtime, n: int)
    requires
        program_encodable(p, rt),
        n <= p.functions@.len(),
    ensures
        functions_code(p, n).0.code.len() <= usize::MAX ==> shaped(
            context_of(p),
            Emit::start(),
            functions_code(p, n).0,
        ),
    decreases n,
{
    if n <= 0 {
        lemma_start(context_of(p), Emit::start());
    } else {
        let s = functions_code(p, n - 1).0;
        lemma_functions(p, rt, n - 1);
        lemma_function(s, context_of(p), program_uses_exc(p), p.functions@[n - 1]);
        if functions_code(p, n).0.code.len() <= usize::MAX {
            lemma_onward(context_of(p), Emit::start(), s, functions_code(p, n).0);
        }
    }
}

proof fn lemma_helpers(p: Program, rt: Runtime, n: int)
    requires
        program_encodable(p, rt),
    ensures
        code_with_helpers(p, rt, n).code.len() <= usize::MAX ==> shaped(
            context_of(p),
            Emit::start(),
            code_with_helpers(p, rt, n),
        ),
        code_with_helpers(p, rt, n).relocs == functions_code(p, p.functions@.len() as int).0.relocs,
        code_with_helpers(p, rt, n).calls == functions_code(p, p.functions@.len() as int).0.calls,
    decreases n,
{
    broadcast use appends;

    if n <= 0 {
        lemma_functions(p, rt, p.functions@.len() as int);
    } else {
        lemma_helpers(p, rt, n - 1);
    }
}

// ---- laws

proof fn lemma_rows(off: int, row: Seq<usize>, n: int)
    ensures
        forall|k: int|
            0 <= k < row_relocs(off, row, n).len() ==> (#[trigger] row_relocs(off, row, n)[k]).section
                == Section::Data && row_relocs(off, row, n)[k].kind == RelocKind::Abs64
                && row_relocs(off, row, n)[k].sym is Fn,
    decreases n,
{
    if n > 0 {
        lemma_rows(off, row, n - 1);
    }
}

proof fn lemma_vtables(p: Program, n: int)
    ensures
        forall|k: int|
            0 <= k < vtable_relocs(p, n).len() ==> (#[trigger] vtable_relocs(p, n)[k]).section
                == Section::Data && vtable_relocs(p, n)[k].kind == RelocKind::Abs64
                && vtable_relocs(p, n)[k].sym is Fn,
    decreases n,
{
    if n > 0 {
        let row = p.vtables@[n - 1].1@;
        let a = vtable_relocs(p, n - 1);
        let b = row_relocs(vtable_offset(p, n - 1), row, row.len() as int);
        lemma_vtables(p, n - 1);
        lemma_rows(vtable_offset(p, n - 1), row, row.len() as int);
        assert forall|k: int| 0 <= k < (a + b).len() implies (#[trigger] (a + b)[k]).section
            == Section::Data && (a + b)[k].kind == RelocKind::Abs64 && (a + b)[k].sym is Fn by {
            if k < a.len() {
                assert((a + b)[k] == a[k]);
            } else {
                assert((a + b)[k] == b[k - a.len()]);
            }
        }
    }
}

proof fn lemma_excs(p: Program, rt: Runtime, n: int)
    ensures
        forall|k: int|
            0 <= k < exc_relocs(p, rt, n).len() ==> (#[trigger] exc_relocs(p, rt, n)[k]).sym
                == Sym::ExcState(exc_offset(p) as usize) && exc_relocs(p, rt, n)[k].kind
                == RelocKind::Abs64 && exc_relocs(p, rt, n)[k].section == Section::Code,
    decreases n,
{
    if n > 6 {
        lemma_excs(p, rt, n - 1);
    }
}

/// Whether `r` is an address that a function takes, not one of the runtime's.
pub open spec fn taken_by_function(r: Reloc) -> bool {
    r.kind == RelocKind::Abs64 && r.section == Section::Code && !(r.sym is HeapBase) && !(
    r.sym is ExcState)
}

/// Where the relocation `k` of a program comes from: from its functions, from
/// its calls, from a vtable or from the runtime.
pub proof fn lemma_origin(p: Program, rt: Runtime, k: int)
    requires
        0 <= k < relocs_of(p, rt).len(),
    ensures
        ({
            let r = relocs_of(p, rt)[k];
            let s = functions_code(p, p.functions@.len() as int).0;
            let n = s.relocs.len() as int;
            &&& k < n ==> r == s.relocs[k]
            &&& n <= k < n + s.calls.len() ==> r == call_relocs(s.calls)[k - n]
            &&& k >= n + s.calls.len() ==> {
                &&& r.kind == RelocKind::Abs64
                &&& match r.section {
                    Section::Data => r.sym is Fn,
                    Section::Code => r.sym is HeapBase || r.sym == Sym::ExcState(
                        exc_offset(p) as usize,
                    ),
                }
            }
        }),
{
    let s = functions_code(p, p.functions@.len() as int).0;
    let a = s.relocs;
    let b = call_relocs(s.calls);
    let c = vtable_relocs(p, p.vtables@.len() as int);
    let d = helper_reloc(p, rt, 5, rt.alloc_revised_heapbase_offset, Sym::HeapBase);
    let e = helper_reloc(p, rt, 4, rt.release_heapbase_offset, Sym::HeapBase);
    let g = exc_relocs(p, rt, 12);
    lemma_vtables(p, p.vtables@.len() as int);
    lemma_excs(p, rt, 12);
    let n = (a.len() + b.len()) as int;
    let r = (a + b + c + d + e + g)[k];
    if k < a.len() {
        assert(r == a[k]);
    } else if k < n {
        assert(r == b[k - a.len()]);
    } else if k < n + c.len() {
        assert(r == c[k - n]);
    } else if k < n + c.len() + d.len() {
        assert(r == d[k - n - c.len()]);
    } else if k < n + c.len() + d.len() + e.len() {
        assert(r == e[k - n - c.len() - d.len()]);
    } else {
        assert(r == g[k - n - c.len() - d.len() - e.len()]);
    }
}

/// Instructions are appended to what has been emitted.
pub proof fn lemma_instrs_append(s: Emit, cx: Cx, loc: Seq<Loc>, instrs: Seq<Instr>, n: int)
    requires
        n <= instrs.len(),
        forall|k: int| 0 <= k < instrs.len() ==> encodable(cx, #[trigger] instrs[k]),
    ensures
        extends(s.code, instrs_code(s, cx, loc, instrs, n).code),
{
    lemma_start(cx, s);
    lemma_instrs(cx, s, s, loc, instrs, n);
    reveal(shaped);
}

/// The end of a block is appended to what has been emitted.
pub proof fn lemma_term_appends(cx: Cx, l: Laid, loc: Seq<Loc>, regs: Seq<Phys>, t: Terminator)
    ensures
        extends(l.s.code, term_code(l, loc, regs, t).s.code),
{
    let bare = Laid { s: l.s, starts: Seq::empty(), jumps: Seq::empty() };
    lemma_start(cx, l.s);
    assert(apart(l.s, bare)) by {
        reveal(apart);
    }
    lemma_term(cx, l.s, bare, loc, regs, t);
    reveal(shaped);
    assert(term_code(l, loc, regs, t).s == term_code(bare, loc, regs, t).s);
}

/// A function is appended to what has been emitted.
pub proof fn lemma_function_appends(s: Emit, cx: Cx, exc: bool, f: IrFunction)
    requires
        function_encodable(cx, exc, f),
        function_code(s, cx, f).code.len() <= usize::MAX,
    ensures
        extends(s.code, function_code(s, cx, f).code),
{
    lemma_function(s, cx, exc, f);
    reveal(shaped);
}

/// Every address that one instruction takes, whatever was emitted before it,
/// is the zeroed immediate of a `movabs` behind that, into the register that
/// goes by the symbol.
pub proof fn instruction_windows_keep_their_shape(
    s: Emit,
    cx: Cx,
    loc: Seq<Loc>,
    i: Instr,
    k: int,
)
    requires
        encodable(cx, i),
        instr_code(s, cx, loc, i).code.len() <= usize::MAX,
        s.relocs.len() <= k < instr_code(s, cx, loc, i).relocs.len(),
    ensures
        ({
            let after = instr_code(s, cx, loc, i);
            let r = after.relocs[k];
            &&& r.kind == RelocKind::Abs64 && r.section == Section::Code
            &&& s.code.len() + 2 <= r.site
            &&& is_window(after.code, r.site as int, window_register(r.sym) as u8)
        }),
{
    lemma_start(cx, s);
    lemma_instr(cx, s, s, loc, i);
    reveal(shaped);
    assert(window_ok(instr_code(s, cx, loc, i).code, instr_code(s, cx, loc, i).relocs[k]));
}

/// Every address that a function takes is the zeroed immediate of a `movabs`
/// into a register that goes by the symbol.
pub proof fn windows_keep_their_shape(p: Program, rt: Runtime, k: int)
    requires
        program_encodable(p, rt),
        machine_code(p, rt).code.len() <= usize::MAX,
        0 <= k < machine_code(p, rt).relocs.len(),
        taken_by_function(machine_code(p, rt).relocs[k]),
    ensures
        window_ok(machine_code(p, rt).code, machine_code(p, rt).relocs[k]),
{
    lemma_origin(p, rt, k);
    lemma_helpers(p, rt, 12);
    reveal(shaped);
}

/// Of two addresses that functions take, the windows do not overlap.
pub proof fn windows_lie_apart(p: Program, rt: Runtime, j: int, k: int)
    requires
        program_encodable(p, rt),
        machine_code(p, rt).code.len() <= usize::MAX,
        0 <= j < k < machine_code(p, rt).relocs.len(),
        taken_by_function(machine_code(p, rt).relocs[j]),
        taken_by_function(machine_code(p, rt).relocs[k]),
    ensures
        machine_code(p, rt).relocs[j].site + 10 <= machine_code(p, rt).relocs[k].site,
{
    lemma_origin(p, rt, j);
    lemma_origin(p, rt, k);
    lemma_helpers(p, rt, 12);
    reveal(shaped);
}

/// Every call is a `call` whose distance is still zero.
pub proof fn calls_keep_their_shape(p: Program, rt: Runtime, k: int)
    requires
        program_encodable(p, rt),
        machine_code(p, rt).code.len() <= usize::MAX,
        0 <= k < machine_code(p, rt).relocs.len(),
        machine_code(p, rt).relocs[k].kind == RelocKind::Rel32Call,
    ensures
        machine_code(p, rt).relocs[k].section == Section::Code,
        is_call(machine_code(p, rt).code, machine_code(p, rt).relocs[k].site as int),
{
    let s = functions_code(p, p.functions@.len() as int).0;
    lemma_origin(p, rt, k);
    lemma_helpers(p, rt, 12);
    reveal(shaped);
    if k < s.relocs.len() {
        assert(window_ok(machine_code(p, rt).code, s.relocs[k]));
    } else {
        assert(is_call(machine_code(p, rt).code, s.calls[k - s.relocs.len()].0 as int));
    }
}

/// A shared object loads every address into the register that the function
/// takes it into.
pub proof fn loads_keep_their_register(p: Program, rt: Runtime, k: int)
    requires
        program_encodable(p, rt),
        machine_code(p, rt).code.len() <= usize::MAX,
        0 <= k < machine_code(p, rt).relocs.len(),
        taken_by_function(machine_code(p, rt).relocs[k]),
    ensures
        is_window(
            machine_code(p, rt).code,
            machine_code(p, rt).relocs[k].site as int,
            window_register(machine_code(p, rt).relocs[k].sym) as u8,
        ),
{
    windows_keep_their_shape(p, rt, k);
}

/// What a function takes the address of is in the program.
pub proof fn addresses_exist(p: Program, rt: Runtime, k: int)
    requires
        program_encodable(p, rt),
        machine_code(p, rt).code.len() <= usize::MAX,
        0 <= k < machine_code(p, rt).relocs.len(),
        taken_by_function(machine_code(p, rt).relocs[k]),
    ensures
        addressed(context_of(p), machine_code(p, rt).relocs[k].sym),
{
    lemma_origin(p, rt, k);
    lemma_helpers(p, rt, 12);
    reveal(shaped);
}

/// Every relocation of a program patches bytes that exist.
pub proof fn relocations_fit(p: Program, rt: Runtime)
    requires
        program_encodable(p, rt),
        machine_code(p, rt).code.len() <= usize::MAX,
    ensures
        relocs_fit(
            machine_code(p, rt).code.len() as int,
            machine_code(p, rt).data.len() as int,
            machine_code(p, rt).relocs,
        ),
{
    let s = functions_code(p, p.functions@.len() as int).0;
    lemma_helpers_behind(p, rt, 0, 12);
    lemma_functions(p, rt, p.functions@.len() as int);
    assert(sites_fit(s)) by {
        reveal(shaped);
        assert forall|k: int| 0 <= k < s.relocs.len() implies (#[trigger] s.relocs[k]).kind
            == RelocKind::Abs64 && s.relocs[k].section == Section::Code && s.relocs[k].site + 8
            <= s.code.len() by {
            assert(window_ok(s.code, s.relocs[k]));
        }
    }
    lemma_relocs_fit(p, rt);
}

/// Every function starts within the code.
pub proof fn functions_start_inside(p: Program, rt: Runtime, k: int)
    requires
        program_encodable(p, rt),
        machine_code(p, rt).code.len() <= usize::MAX,
        0 <= k < machine_code(p, rt).fn_bases.len(),
    ensures
        machine_code(p, rt).fn_bases.len() == p.functions@.len(),
        machine_code(p, rt).fn_bases[k] == functions_code(p, k).0.code.len(),
        machine_code(p, rt).fn_bases[k] <= machine_code(p, rt).code.len(),
{
    lemma_helpers_behind(p, rt, 0, 12);
    lemma_bases(p, rt, p.functions@.len() as int, k);
}

proof fn lemma_bases(p: Program, rt: Runtime, n: int, k: int)
    requires
        program_encodable(p, rt),
        0 <= n <= p.functions@.len(),
        functions_code(p, n).0.code.len() <= usize::MAX,
    ensures
        functions_code(p, n).1.len() == n,
        0 <= k < n ==> functions_code(p, n).1[k] == functions_code(p, k).0.code.len()
            && functions_code(p, k).0.code.len() <= functions_code(p, n).0.code.len(),
    decreases n,
{
    if n > 0 {
        lemma_function(
            functions_code(p, n - 1).0,
            context_of(p),
            program_uses_exc(p),
            p.functions@[n - 1],
        );
        lemma_bases(p, rt, n - 1, k);
    }
}

/// Functions take neither the heap base nor the exception state.
pub proof fn function_addresses(p: Program, rt: Runtime, k: int)
    requires
        program_encodable(p, rt),
        machine_code(p, rt).code.len() <= usize::MAX,
        0 <= k < functions_code(p, p.functions@.len() as int).0.relocs.len(),
    ensures
        taken_by_function(functions_code(p, p.functions@.len() as int).0.relocs[k]),
{
    lemma_helpers(p, rt, 12);
    reveal(shaped);
}

/// There is one start for each function.
pub proof fn functions_count(p: Program, rt: Runtime)
    requires
        program_encodable(p, rt),
        machine_code(p, rt).code.len() <= usize::MAX,
    ensures
        machine_code(p, rt).fn_bases.len() == p.functions@.len(),
{
    lemma_helpers_behind(p, rt, 0, 12);
    lemma_bases(p, rt, p.functions@.len() as int, 0);
}

} // verus!
