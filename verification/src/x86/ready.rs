//! Whether a program can be lowered.
use crate::ir::{BinOp, Block, Instr, IrFunction, Program, ReceiverKind, Terminator, VReg};
use crate::x86::emit::MAX_SLOTS;
use crate::x86::encode_x64::{
    block_exc, context_of, data_size, gather, lemma_slots_grow, program_encodable,
    program_uses_argv, program_uses_exc, uses_argv_in, uses_exc_in, vtable_offset, Backend,
};
use crate::x86::function::{block_encodable, block_uses_argv, function_encodable, term_in_range};
use crate::x86::instrs::{args_in_range, encodable, in_range, Context};
use crate::x86::liveness::{
    ascending, block_ok, def_of, lemma_ascending, operands_of, reg_numbers, uses_of,
};
use crate::x86::regalloc::{allocatable, allocate, entry, homes_number, Allocation};
use crate::x86::runtime::Runtime;
use vstd::prelude::*;

verus! {

/// Operands that exist for emission exist for the allocator.
proof fn lemma_operands(i: Instr, n: int)
    requires
        in_range(i, n),
    ensures
        def_of(i) matches Some(d) ==> d < n,
        forall|j: int| 0 <= j < uses_of(i).len() ==> #[trigger] uses_of(i)[j] < n,
{
    let all = operands_of(i);
    assert forall|j: int| 0 <= j < all.len() implies #[trigger] all[j] < n by {
        match i {
            Instr::CallFn { args, .. } | Instr::CallStatic { args, .. } | Instr::CallImport {
                args,
                ..
            } | Instr::CallVirt { args, .. } | Instr::CallByName { args, .. } => {
                if j < args@.len() {
                    assert(args@[j].0 < n);
                    assert(all[j] == reg_numbers(args@)[j]);
                }
            },
            _ => {},
        }
    }
    lemma_ascending(all);
    assert forall|j: int| 0 <= j < uses_of(i).len() implies #[trigger] uses_of(i)[j] < n by {
        assert(ascending(all).contains(uses_of(i)[j]));
        let k = choose|k: int| 0 <= k < all.len() && all[k] == uses_of(i)[j];
        assert(all[k] < n);
    }
}

fn args_ok(args: &Vec<VReg>, n: u32) -> (r: bool)
    ensures
        r == args_in_range(args@, n as int),
{
    let mut k: usize = 0;
    while k < args.len()
        invariant
            k <= args@.len(),
            forall|j: int| 0 <= j < k ==> (#[trigger] args@[j]).0 < n,
        decreases args.len() - k,
    {
        if args[k].0 >= n {
            return false;
        }
        k += 1;
    }
    true
}

/// Whether every virtual register that `i` names is below `n`.
fn operands_ok(i: &Instr, n: u32) -> (r: bool)
    ensures
        r == in_range(*i, n as int),
{
    match i {
        Instr::Const { dst, .. } => dst.0 < n,
        Instr::FConst { dst, .. } => dst.0 < n,
        Instr::Mov { dst, a } => dst.0 < n && a.0 < n,
        Instr::Raw(_) => true,
        Instr::Bin { dst, a, b, .. } => dst.0 < n && a.0 < n && b.0 < n,
        Instr::Cmp { dst, a, b, .. } => dst.0 < n && a.0 < n && b.0 < n,
        Instr::Neg { dst, a } => dst.0 < n && a.0 < n,
        Instr::FBin { dst, a, b, .. } => dst.0 < n && a.0 < n && b.0 < n,
        Instr::FCmp { dst, a, b, .. } => dst.0 < n && a.0 < n && b.0 < n,
        Instr::FNeg { dst, a } => dst.0 < n && a.0 < n,
        Instr::CallFn { dst, args, .. } => dst.0 < n && args_ok(args, n),
        Instr::CallStatic { dst, args, .. } => dst.0 < n && args_ok(args, n),
        Instr::CallVirt { dst, recv, args, .. } => dst.0 < n && recv.0 < n && args_ok(args, n),
        Instr::CallImport { dst, args, .. } => dst.0 < n && args_ok(args, n),
        Instr::CallByName { dst, recv, args, .. } => dst.0 < n && recv.0 < n && args_ok(args, n),
        Instr::LoadImport { dst, .. } => dst.0 < n,
        Instr::Alloc { dst, .. } => dst.0 < n,
        Instr::AllocDyn { dst, bytes } => dst.0 < n && bytes.0 < n,
        Instr::StackAlloc { dst, .. } => dst.0 < n,
        Instr::VTableAddr { dst, .. } => dst.0 < n,
        Instr::LoadStaticAddr { dst, .. } => dst.0 < n,
        Instr::LoadStrAddr { dst, .. } => dst.0 < n,
        Instr::LoadField { dst, base, .. } => dst.0 < n && base.0 < n,
        Instr::LoadByte { dst, base, .. } => dst.0 < n && base.0 < n,
        Instr::StoreField { base, src, .. } => base.0 < n && src.0 < n,
        Instr::BuildArgv { dst } => dst.0 < n,
        Instr::WriteStr { .. } => true,
        Instr::EWriteStr { .. } => true,
        Instr::WriteString { src } => src.0 < n,
        Instr::WriteInt { src } => src.0 < n,
        Instr::EWriteInt { src } => src.0 < n,
        Instr::ScanInt { dst } => dst.0 < n,
        Instr::MemCpy { dst, src, len } => dst.0 < n && src.0 < n && len.0 < n,
        Instr::MemCmp { dst, a, b, len } => dst.0 < n && a.0 < n && b.0 < n && len.0 < n,
        Instr::Retain { src } => src.0 < n,
        Instr::Release { src, .. } => src.0 < n,
        Instr::Drop { src } => src.0 < n,
        Instr::Exit => true,
        Instr::HandlerEnter { dst } => dst.0 < n,
        Instr::HandlerPop => true,
        Instr::LoadExc { dst } => dst.0 < n,
        Instr::ClearInflight => true,
        Instr::TaskAlloc { dst, .. } => dst.0 < n,
        Instr::Suspend { state } => state.0 < n,
        Instr::CoroutineResume { task, dst } => task.0 < n && dst.0 < n,
    }
}

/// Whether this target has code for `i`.
fn has_code(cx: &Context, i: &Instr) -> (r: bool)
    ensures
        r == encodable(cx@, *i),
{
    match i {
        Instr::Exit => false,
        Instr::CallByName { .. } => false,
        Instr::StackAlloc { .. } => false,
        Instr::Drop { .. } => false,
        Instr::Bin { op, .. } => *op != BinOp::Is,
        Instr::VTableAddr { .. } => cx.vtable_offsets.len() > 0,
        Instr::CallVirt { slot, .. } => *slot <= u32::MAX / 8,
        _ => true,
    }
}

fn term_ok(t: &Terminator, n: u32) -> (r: bool)
    ensures
        r == term_in_range(*t, n as int),
{
    match t {
        Terminator::Ret(Some(v)) => v.0 < n,
        Terminator::ExitWith(v) => v.0 < n,
        Terminator::Unwind { src } => src.0 < n,
        Terminator::Branch { cond: Some(c), .. } => c.0 < n,
        _ => true,
    }
}

/// Whether `b` can be allocated and has code, in function `f`.
fn block_ready(cx: &Context, exc: bool, f: &IrFunction, b: &Block) -> (r: bool)
    ensures
        r ==> block_ok(*f, *b) && block_encodable(cx@, exc, *b, f.vregs as int),
        !r ==> !block_ok(*f, *b) || !block_encodable(cx@, exc, *b, f.vregs as int),
{
    let n: u32 = f.vregs;
    let mut argv: bool = false;
    let mut k: usize = 0;
    while k < b.instrs.len()
        invariant
            k <= b.instrs@.len(),
            n == f.vregs,
            forall|j: int|
                0 <= j < k ==> in_range(#[trigger] b.instrs@[j], n as int) && encodable(
                    cx@,
                    b.instrs@[j],
                ),
            argv ==> block_uses_argv(*b),
            !argv ==> forall|j: int| 0 <= j < k ==> !(#[trigger] b.instrs@[j] is BuildArgv),
        decreases b.instrs.len() - k,
    {
        let i: &Instr = &b.instrs[k];
        if !operands_ok(i, n) || !has_code(cx, i) {
            proof {
                assert(!in_range(b.instrs@[k as int], n as int) || !encodable(
                    cx@,
                    b.instrs@[k as int],
                ));
            }
            return false;
        }
        if let Instr::BuildArgv { .. } = i {
            argv = true;
            proof {
                assert(b.instrs@[k as int] is BuildArgv);
            }
        }
        k += 1;
    }
    if !term_ok(&b.term, n) {
        return false;
    }
    if argv && !cx.uses_argv {
        return false;
    }
    if block_exc(b) && !exc {
        return false;
    }
    if let Terminator::Branch { if_true, if_false, .. } = &b.term {
        if *if_true as usize >= f.blocks.len() || *if_false as usize >= f.blocks.len() {
            return false;
        }
    }
    proof {
        assert forall|k: int| 0 <= k < b.instrs@.len() implies (def_of(
            #[trigger] b.instrs@[k],
        ) matches Some(d) ==> d < f.vregs) by {
            assert(in_range(b.instrs@[k], n as int));
            lemma_operands(b.instrs@[k], n as int);
        }
        assert forall|k: int, j: int|
            0 <= k < b.instrs@.len() && 0 <= j < uses_of(b.instrs@[k]).len() implies #[trigger] uses_of(
            b.instrs@[k],
        )[j] < f.vregs by {
            assert(in_range(b.instrs@[k], n as int));
            lemma_operands(b.instrs@[k], n as int);
        }
    }
    true
}

proof fn lemma_entry_monotone(f: IrFunction, a: int, b: int)
    requires
        0 <= a <= b,
    ensures
        0 <= entry(f, a) <= entry(f, b),
    decreases b,
{
    if b > 0 {
        if a < b {
            lemma_entry_monotone(f, a, b - 1);
        } else {
            lemma_entry_monotone(f, a - 1, b - 1);
        }
    }
}

/// Whether `f` can be allocated and has code.
fn function_ready(cx: &Context, exc: bool, f: &IrFunction) -> (r: bool)
    ensures
        r == function_encodable(cx@, exc, *f),
{
    proof {
        reveal(function_encodable);
    }
    let incoming: u128 = match f.receiver {
        ReceiverKind::Static => f.arity as u128,
        ReceiverKind::This => f.arity as u128 + 1,
    };
    if incoming > f.vregs as u128 {
        return false;
    }
    let mut positions: u32 = 0;
    let mut k: usize = 0;
    while k < f.blocks.len()
        invariant
            k <= f.blocks@.len(),
            positions == entry(*f, k as int),
            forall|j: int|
                0 <= j < k ==> block_ok(*f, #[trigger] f.blocks@[j]) && block_encodable(
                    cx@,
                    exc,
                    f.blocks@[j],
                    f.vregs as int,
                ),
        decreases f.blocks.len() - k,
    {
        let n: usize = f.blocks[k].instrs.len();
        if n >= u32::MAX as usize || positions > u32::MAX - n as u32 - 1 {
            proof {
                reveal(function_encodable);
                lemma_entry_monotone(*f, k + 1, f.blocks@.len() as int);
                lemma_entry_monotone(*f, 0, k as int);
            }
            return false;
        }
        if !block_ready(cx, exc, f, &f.blocks[k]) {
            proof {
                reveal(function_encodable);
                assert(!block_ok(*f, f.blocks@[k as int]) || !block_encodable(
                    cx@,
                    exc,
                    f.blocks@[k as int],
                    f.vregs as int,
                ));
            }
            return false;
        }
        positions = positions + n as u32 + 1;
        k += 1;
    }
    proof {
        assert(allocatable(*f));
        homes_number(*f);
    }
    if f.vregs <= MAX_SLOTS {
        return true;
    }
    let a: Allocation = allocate(f);
    a.spills <= MAX_SLOTS
}

/// Whether the data blob can be addressed.
fn data_fits(p: &Program, rt: &Runtime, uses_argv: bool, exc: bool) -> (r: bool)
    requires
        uses_argv == program_uses_argv(*p),
        exc == program_uses_exc(*p),
    ensures
        r == (data_size(*p, *rt) <= usize::MAX),
{
    let max: u128 = usize::MAX as u128;
    let mut at: u128 = p.strings.len() as u128;
    let mut k: usize = 0;
    while k < p.vtables.len()
        invariant
            k <= p.vtables@.len(),
            max == usize::MAX,
            at == vtable_offset(*p, k as int),
            at <= max,
        decreases p.vtables.len() - k,
    {
        at = at + 8 * p.vtables[k].1.len() as u128;
        if at > max {
            proof {
                lemma_slots_grow(*p, k + 1, p.vtables@.len() as int);
            }
            return false;
        }
        k += 1;
    }
    at = at + 8 * p.statics.len() as u128;
    if exc {
        at = at + rt.exc_state_size as u128;
    }
    if uses_argv {
        at = at + 8;
    }
    at <= max
}

impl Backend {
    /// Whether `p` can be lowered.
    pub fn can_lower(&self, p: &Program, rt: &Runtime) -> (r: bool)
        ensures
            r == program_encodable(*p, *rt),
    {
        if !rt.is_ok() {
            return false;
        }
        let uses_argv: bool = uses_argv_in(p);
        let exc: bool = uses_exc_in(p);
        if !data_fits(p, rt, uses_argv, exc) {
            return false;
        }
        let cx: Context = gather(p, uses_argv);
        let mut k: usize = 0;
        while k < p.functions.len()
            invariant
                k <= p.functions@.len(),
                cx@ == context_of(*p),
                exc == program_uses_exc(*p),
                forall|j: int|
                    0 <= j < k ==> function_encodable(
                        context_of(*p),
                        exc,
                        #[trigger] p.functions@[j],
                    ),
            decreases p.functions.len() - k,
        {
            if !function_ready(&cx, exc, &p.functions[k]) {
                proof {
                    assert(!function_encodable(context_of(*p), exc, p.functions@[k as int]));
                }
                return false;
            }
            k += 1;
        }
        true
    }
}

} // verus!
