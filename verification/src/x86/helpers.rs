//! Which runtime helpers come with a program: those that it calls.
use crate::ir::{Block, Instr, IrFunction, Program, Terminator, VReg};
use crate::x86::emit::{rex, Emit, Uses, RAX};
use crate::x86::encode_x64::{
    context_of, functions_code, helper_start, helper_used, lemma_helpers_behind, machine_code,
    program_uses_exc,
};
use crate::x86::function::{
    blocks_code, function_code, instrs_code, laid_out, pop_regs, prologue, push_regs, savers,
    store_params, term_code, Laid,
};
use crate::x86::instrs::{
    argv_code, argv_copy, argv_head, argv_object, field_operand, home, instr_code, is_arith,
    is_call_instr, is_io, is_memory, is_runtime, load_args, push_args, Cx,
};
use crate::x86::regalloc::{allocation, Loc, Phys, POOL};
use crate::x86::runtime::Runtime;
use vstd::prelude::*;

verus! {

/// Whether `i` calls the runtime helper number `k`, in layout order, of those
/// that are not part of the exception runtime.
pub open spec fn calls_helper(i: Instr, k: int) -> bool {
    if k == 0 {
        i is WriteInt
    } else if k == 1 {
        i is EWriteInt
    } else if k == 2 {
        i is ScanInt
    } else if k == 3 {
        i is Retain
    } else if k == 4 {
        i is Release
    } else {
        k == 5 && (i is Alloc || i is AllocDyn || i is TaskAlloc || i is BuildArgv)
    }
}

/// Whether an instruction of the first `n` functions of `p` calls helper `k`.
pub open spec fn called_in(p: Program, n: int, k: int) -> bool {
    exists|f: int, b: int, j: int|
        0 <= f < n && 0 <= b < p.functions@[f].blocks@.len() && 0 <= j
            < p.functions@[f].blocks@[b].instrs@.len() && calls_helper(
            #[trigger] p.functions@[f].blocks@[b].instrs@[j],
            k,
        )
}

/// Whether an instruction of `p` calls helper `k`.
pub open spec fn program_calls(p: Program, k: int) -> bool {
    called_in(p, p.functions@.len() as int, k)
}

spec fn used(u: Uses, k: int) -> bool {
    helper_used(u, false, k)
}

/// `u` with the helper that `i` calls.
spec fn with_call(u: Uses, i: Instr) -> Uses {
    Uses {
        int: u.int || i is WriteInt,
        int_err: u.int_err || i is EWriteInt,
        scan: u.scan || i is ScanInt,
        retain: u.retain || i is Retain,
        release: u.release || i is Release,
        alloc: u.alloc || i is Alloc || i is AllocDyn || i is TaskAlloc || i is BuildArgv,
    }
}

broadcast proof fn lemma_get(s: Emit, into: u8, l: Loc)
    ensures
        (#[trigger] s.get(into, l)).uses == s.uses,
{
}

broadcast proof fn lemma_put(s: Emit, from: u8, l: Loc)
    ensures
        (#[trigger] s.put(from, l)).uses == s.uses,
{
}

broadcast proof fn lemma_push_args(s: Emit, loc: Seq<Loc>, args: Seq<VReg>, lo: int, hi: int)
    ensures
        (#[trigger] push_args(s, loc, args, lo, hi)).uses == s.uses,
    decreases hi - lo,
{
    broadcast use lemma_get;

    if lo < hi {
        lemma_push_args(
            s.get(RAX, home(loc, args[hi - 1])).raw(seq![0x50]),
            loc,
            args,
            lo,
            hi - 1,
        );
    }
}

broadcast proof fn lemma_load_args(s: Emit, loc: Seq<Loc>, args: Seq<VReg>, first: int, n: int)
    ensures
        (#[trigger] load_args(s, loc, args, first, n)).uses == s.uses,
    decreases n,
{
    broadcast use lemma_get;

    if n > 0 {
        lemma_load_args(s, loc, args, first, n - 1);
    }
}

broadcast proof fn lemma_argv(s: Emit, d: Loc)
    ensures
        (#[trigger] argv_code(s, d)).uses == s.uses,
{
    broadcast use lemma_put;

    assert(argv_head(s).uses == s.uses);
    assert(forall|t: Emit| (#[trigger] argv_object(t)).uses == t.uses);
    assert(forall|t: Emit| (#[trigger] argv_copy(t)).uses == t.uses);
}

proof fn lemma_arith(s: Emit, cx: Cx, loc: Seq<Loc>, i: Instr)
    requires
        is_arith(i),
    ensures
        instr_code(s, cx, loc, i).uses == s.uses,
{
    broadcast use {lemma_get, lemma_put};

}

proof fn lemma_calls(s: Emit, cx: Cx, loc: Seq<Loc>, i: Instr)
    requires
        is_call_instr(i),
    ensures
        instr_code(s, cx, loc, i).uses == s.uses,
{
    broadcast use {lemma_get, lemma_put, lemma_push_args, lemma_load_args};

}

/// Whether `i` works on a stretch of bytes.
spec fn is_loop(i: Instr) -> bool {
    i is MemCpy || i is MemCmp
}

/// Whether `i` works on a field.
spec fn is_field(i: Instr) -> bool {
    i is LoadField || i is LoadByte || i is StoreField
}

proof fn lemma_memory(s: Emit, cx: Cx, loc: Seq<Loc>, i: Instr)
    requires
        is_memory(i),
        !is_loop(i),
        !is_field(i),
    ensures
        instr_code(s, cx, loc, i).uses == with_call(s.uses, i),
{
    broadcast use {lemma_get, lemma_put};

}

broadcast proof fn lemma_operand(s: Emit, reg: u8, off: u32)
    ensures
        (#[trigger] field_operand(s, reg, off)).uses == s.uses,
{
}

proof fn lemma_fields(s: Emit, cx: Cx, loc: Seq<Loc>, i: Instr)
    requires
        is_field(i),
    ensures
        instr_code(s, cx, loc, i).uses == with_call(s.uses, i),
{
    broadcast use {lemma_get, lemma_put, lemma_operand};

}

proof fn lemma_loops(s: Emit, cx: Cx, loc: Seq<Loc>, i: Instr)
    requires
        is_loop(i),
    ensures
        instr_code(s, cx, loc, i).uses == with_call(s.uses, i),
{
    broadcast use {lemma_get, lemma_put};

}

proof fn lemma_io(s: Emit, cx: Cx, loc: Seq<Loc>, i: Instr)
    requires
        is_io(i),
    ensures
        instr_code(s, cx, loc, i).uses == with_call(s.uses, i),
{
    if let Instr::BuildArgv { dst } = i {
        lemma_argv(s.with((Uses { alloc: true, ..s.uses })), home(loc, dst));
    } else {
        broadcast use {lemma_get, lemma_put};

    }
}

proof fn lemma_runtime(s: Emit, cx: Cx, loc: Seq<Loc>, i: Instr)
    requires
        is_runtime(i),
    ensures
        instr_code(s, cx, loc, i).uses == with_call(s.uses, i),
{
    broadcast use {lemma_get, lemma_put};

}

/// Emission notes the helper that an instruction calls, and no other.
proof fn lemma_instr(s: Emit, cx: Cx, loc: Seq<Loc>, i: Instr)
    ensures
        instr_code(s, cx, loc, i).uses == with_call(s.uses, i),
{
    if is_arith(i) {
        lemma_arith(s, cx, loc, i);
    } else if is_call_instr(i) {
        lemma_calls(s, cx, loc, i);
    } else if is_loop(i) {
        lemma_loops(s, cx, loc, i);
    } else if is_field(i) {
        lemma_fields(s, cx, loc, i);
    } else if is_memory(i) {
        lemma_memory(s, cx, loc, i);
    } else if is_io(i) {
        lemma_io(s, cx, loc, i);
    } else if is_runtime(i) {
        lemma_runtime(s, cx, loc, i);
    }
}

proof fn lemma_instrs(s: Emit, cx: Cx, loc: Seq<Loc>, instrs: Seq<Instr>, n: int, k: int)
    requires
        0 <= k < 6,
        0 <= n <= instrs.len(),
    ensures
        used(instrs_code(s, cx, loc, instrs, n).uses, k) <==> used(s.uses, k) || exists|j: int|
            0 <= j < n && calls_helper(#[trigger] instrs[j], k),
    decreases n,
{
    if n > 0 {
        let before = instrs_code(s, cx, loc, instrs, n - 1);
        lemma_instrs(s, cx, loc, instrs, n - 1, k);
        lemma_instr(before, cx, loc, instrs[n - 1]);
        if calls_helper(instrs[n - 1], k) {
            assert(0 <= n - 1 < n);
        }
    }
}

broadcast proof fn lemma_push_regs(s: Emit, regs: Seq<Phys>, n: int)
    ensures
        (#[trigger] push_regs(s, regs, n)).uses == s.uses,
    decreases n,
{
    if n > 0 {
        lemma_push_regs(s, regs, n - 1);
    }
}

broadcast proof fn lemma_pop_regs(s: Emit, regs: Seq<Phys>, n: int)
    ensures
        (#[trigger] pop_regs(s, regs, n)).uses == s.uses,
    decreases n,
{
    if n > 0 {
        let r = regs[n - 1].number();
        lemma_pop_regs(
            s.raw(seq![rex(true, false, r >= 8), (0x58 + r % 8) as u8]),
            regs,
            n - 1,
        );
    }
}

broadcast proof fn lemma_store_params(s: Emit, loc: Seq<Loc>, first: int, n: int)
    ensures
        (#[trigger] store_params(s, loc, first, n)).uses == s.uses,
    decreases n,
{
    broadcast use lemma_put;

    if n > 0 {
        lemma_store_params(s, loc, first, n - 1);
    }
}

proof fn lemma_term(l: Laid, loc: Seq<Loc>, regs: Seq<Phys>, t: Terminator)
    ensures
        term_code(l, loc, regs, t).s.uses == l.s.uses,
{
    broadcast use {lemma_get, lemma_pop_regs};

}

proof fn lemma_prologue(s: Emit, cx: Cx, f: IrFunction)
    ensures
        prologue(s, cx, f).uses == s.uses,
{
    broadcast use {lemma_put, lemma_push_regs, lemma_store_params};

}

proof fn lemma_blocks(
    s: Emit,
    cx: Cx,
    loc: Seq<Loc>,
    regs: Seq<Phys>,
    blocks: Seq<Block>,
    n: int,
    k: int,
)
    requires
        0 <= k < 6,
        0 <= n <= blocks.len(),
    ensures
        used(blocks_code(s, cx, loc, regs, blocks, n).s.uses, k) <==> used(s.uses, k) || exists|
            b: int,
            j: int,
        |
            0 <= b < n && 0 <= j < blocks[b].instrs@.len() && calls_helper(
                #[trigger] blocks[b].instrs@[j],
                k,
            ),
    decreases n,
{
    if n > 0 {
        let l = blocks_code(s, cx, loc, regs, blocks, n - 1);
        let b = blocks[n - 1];
        let m = b.instrs@.len() as int;
        lemma_blocks(s, cx, loc, regs, blocks, n - 1, k);
        lemma_instrs(l.s, cx, loc, b.instrs@, m, k);
        let started = Laid { starts: l.starts.push(l.s.code.len() as usize), ..l };
        lemma_term(
            started.then_emit(instrs_code(l.s, cx, loc, b.instrs@, m)),
            loc,
            regs,
            b.term,
        );
        if exists|j: int| 0 <= j < m && calls_helper(#[trigger] b.instrs@[j], k) {
            let j = choose|j: int| 0 <= j < m && calls_helper(#[trigger] b.instrs@[j], k);
            assert(calls_helper(blocks[n - 1].instrs@[j], k));
        }
    }
}

proof fn lemma_function(s: Emit, cx: Cx, f: IrFunction, k: int)
    requires
        0 <= k < 6,
    ensures
        used(function_code(s, cx, f).uses, k) <==> used(s.uses, k) || exists|b: int, j: int|
            0 <= b < f.blocks@.len() && 0 <= j < f.blocks@[b].instrs@.len() && calls_helper(
                #[trigger] f.blocks@[b].instrs@[j],
                k,
            ),
{
    reveal(function_code);
    reveal(laid_out);
    let loc = allocation(f).loc;
    let regs = savers(loc, POOL@.len() as nat);
    lemma_prologue(s, cx, f);
    lemma_blocks(prologue(s, cx, f), cx, loc, regs, f.blocks@, f.blocks@.len() as int, k);
}

proof fn lemma_functions(p: Program, n: int, k: int)
    requires
        0 <= k < 6,
        0 <= n <= p.functions@.len(),
    ensures
        used(functions_code(p, n).0.uses, k) <==> called_in(p, n, k),
    decreases n,
{
    if n > 0 {
        let f = p.functions@[n - 1];
        lemma_functions(p, n - 1, k);
        lemma_function(functions_code(p, n - 1).0, context_of(p), f, k);
        if exists|b: int, j: int|
            0 <= b < f.blocks@.len() && 0 <= j < f.blocks@[b].instrs@.len() && calls_helper(
                #[trigger] f.blocks@[b].instrs@[j],
                k,
            ) {
            let (b, j) = choose|b: int, j: int|
                0 <= b < f.blocks@.len() && 0 <= j < f.blocks@[b].instrs@.len() && calls_helper(
                    #[trigger] f.blocks@[b].instrs@[j],
                    k,
                );
            assert(calls_helper(p.functions@[n - 1].blocks@[b].instrs@[j], k));
        }
    }
}

proof fn lemma_present(p: Program, rt: Runtime, k: int)
    requires
        0 <= k < 12,
    ensures
        helper_start(p, rt, k) is Some <==> if k < 6 {
            program_calls(p, k)
        } else {
            program_uses_exc(p)
        },
{
    reveal(helper_start);
    lemma_helpers_behind(p, rt, 0, k);
    if k < 6 {
        lemma_functions(p, p.functions@.len() as int, k);
    }
}

/// A helper comes with the machine code exactly where an instruction calls
/// it; those of the exception runtime come together, where one of them is
/// called.
pub proof fn helpers_come_when_called(p: Program, rt: Runtime)
    ensures
        ({
            let mc = machine_code(p, rt);
            &&& mc.helper_itoa is Some <==> program_calls(p, 0)
            &&& mc.helper_itoa_err is Some <==> program_calls(p, 1)
            &&& mc.helper_scan_int is Some <==> program_calls(p, 2)
            &&& mc.helper_retain is Some <==> program_calls(p, 3)
            &&& mc.helper_release is Some <==> program_calls(p, 4)
            &&& mc.helper_alloc is Some <==> program_calls(p, 5)
            &&& mc.helper_exc_enter is Some <==> program_uses_exc(p)
            &&& mc.helper_exc_pop is Some <==> program_uses_exc(p)
            &&& mc.helper_exc_load is Some <==> program_uses_exc(p)
            &&& mc.helper_exc_clear is Some <==> program_uses_exc(p)
            &&& mc.helper_exc_throw is Some <==> program_uses_exc(p)
            &&& mc.helper_exc_rethrow is Some <==> program_uses_exc(p)
        }),
{
    lemma_present(p, rt, 0);
    lemma_present(p, rt, 1);
    lemma_present(p, rt, 2);
    lemma_present(p, rt, 3);
    lemma_present(p, rt, 4);
    lemma_present(p, rt, 5);
    lemma_present(p, rt, 6);
    lemma_present(p, rt, 7);
    lemma_present(p, rt, 8);
    lemma_present(p, rt, 9);
    lemma_present(p, rt, 10);
    lemma_present(p, rt, 11);
}

} // verus!
