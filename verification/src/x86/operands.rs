//! What liveness counts is what the code names: the code of an instruction
//! depends on the homes of its operands and of its result, and on no others.
use crate::ir::{Instr, Terminator, VReg};
use crate::x86::emit::{Emit, RAX};
use crate::x86::function::{term_code, Laid};
use crate::x86::instrs::{home, instr_code, load_args, push_args, Cx};
use crate::x86::liveness::{def_of, lemma_ascending, operands_of, read_at_end, uses_of};
use crate::x86::regalloc::{Loc, Phys};
use vstd::prelude::*;

verus! {

/// Whether two tables give the same homes to what `i` reads and writes.
pub open spec fn same_homes(x: Seq<Loc>, y: Seq<Loc>, i: Instr) -> bool {
    forall|v: u32|
        uses_of(i).contains(v) || def_of(i) == Some(v) ==> #[trigger] x[v as int] == y[v as int]
}

/// Whether two tables give the same homes to each of `args`.
spec fn same_args(x: Seq<Loc>, y: Seq<Loc>, args: Seq<VReg>) -> bool {
    forall|k: int| 0 <= k < args.len() ==> home(x, #[trigger] args[k]) == home(y, args[k])
}

proof fn lemma_push_args(s: Emit, x: Seq<Loc>, y: Seq<Loc>, args: Seq<VReg>, lo: int, hi: int)
    requires
        same_args(x, y, args),
        0 <= lo,
        hi <= args.len(),
    ensures
        push_args(s, x, args, lo, hi) == push_args(s, y, args, lo, hi),
    decreases hi - lo,
{
    if lo < hi {
        let h = home(x, args[hi - 1]);
        assert(h == home(y, args[hi - 1]));
        lemma_push_args(s.get(RAX, h).raw(seq![0x50]), x, y, args, lo, hi - 1);
    }
}

proof fn lemma_load_args(s: Emit, x: Seq<Loc>, y: Seq<Loc>, args: Seq<VReg>, first: int, n: int)
    requires
        same_args(x, y, args),
        n <= args.len(),
    ensures
        load_args(s, x, args, first, n) == load_args(s, y, args, first, n),
    decreases n,
{
    if n > 0 {
        lemma_load_args(s, x, y, args, first, n - 1);
        assert(home(x, args[n - 1]) == home(y, args[n - 1]));
    }
}

proof fn lemma_args(s: Emit, x: Seq<Loc>, y: Seq<Loc>, args: Seq<VReg>)
    requires
        same_args(x, y, args),
    ensures
        crate::x86::instrs::place_args(s, x, args) == crate::x86::instrs::place_args(s, y, args),
        crate::x86::instrs::place_behind_receiver(s, x, args)
            == crate::x86::instrs::place_behind_receiver(s, y, args),
{
    let n = args.len() as int;
    lemma_push_args(s, x, y, args, 6, n);
    let m = crate::x86::instrs::min(n, 6);
    lemma_load_args(push_args(s, x, args, 6, n), x, y, args, 0, m);
    let k = crate::x86::instrs::min(n, 5);
    lemma_load_args(s, x, y, args, 1, k);
    lemma_push_args(load_args(s, x, args, 1, k), x, y, args, 5, n);
}

/// The homes of the operands that stand at the front of the list.
proof fn lemma_operand(x: Seq<Loc>, y: Seq<Loc>, i: Instr, k: int)
    requires
        same_homes(x, y, i),
        0 <= k < operands_of(i).len(),
    ensures
        x[operands_of(i)[k] as int] == y[operands_of(i)[k] as int],
{
    lemma_ascending(operands_of(i));
    let v = operands_of(i)[k];
    assert(operands_of(i).contains(v));
    assert(uses_of(i).contains(v));
}

proof fn lemma_same_args(x: Seq<Loc>, y: Seq<Loc>, i: Instr, args: Seq<VReg>)
    requires
        same_homes(x, y, i),
        args.len() <= operands_of(i).len(),
        forall|k: int| 0 <= k < args.len() ==> operands_of(i)[k] == (#[trigger] args[k]).0,
    ensures
        same_args(x, y, args),
{
    assert forall|k: int| 0 <= k < args.len() implies home(x, #[trigger] args[k]) == home(
        y,
        args[k],
    ) by {
        lemma_operand(x, y, i, k);
    }
}

/// The code of an instruction names the homes of what liveness counts as its
/// operands and its result, and no other: two tables that agree on those give
/// the same code.
pub proof fn operands_are_counted(s: Emit, cx: Cx, x: Seq<Loc>, y: Seq<Loc>, i: Instr)
    requires
        same_homes(x, y, i),
    ensures
        instr_code(s, cx, x, i) == instr_code(s, cx, y, i),
{
    let n = operands_of(i).len() as int;
    if let Some(d) = def_of(i) {
        assert(x[d as int] == y[d as int]);
    }
    match i {
        Instr::CallFn { dst, args, .. } => {
            lemma_same_args(x, y, i, args@);
            lemma_args(s, x, y, args@);
        },
        Instr::CallStatic { dst, args, .. } => {
            lemma_same_args(x, y, i, args@);
            lemma_args(s, x, y, args@);
            lemma_args(s.raw(seq![0x31, 0xFF]), x, y, args@);
        },
        Instr::CallImport { dst, args, .. } => {
            lemma_same_args(x, y, i, args@);
            lemma_args(s, x, y, args@);
        },
        Instr::CallVirt { dst, recv, args, .. } => {
            lemma_same_args(x, y, i, args@);
            lemma_operand(x, y, i, args@.len() as int);
            lemma_args(s.get(crate::x86::emit::RDI, home(x, recv)), x, y, args@);
        },
        Instr::CallByName { .. } => {},
        _ => {
            if n > 0 {
                lemma_operand(x, y, i, 0);
            }
            if n > 1 {
                lemma_operand(x, y, i, 1);
            }
            if n > 2 {
                lemma_operand(x, y, i, 2);
            }
        },
    }
}

/// The end of a block names the home of what liveness counts as read there,
/// and no other.
pub proof fn end_operand_is_counted(
    l: Laid,
    x: Seq<Loc>,
    y: Seq<Loc>,
    regs: Seq<Phys>,
    t: Terminator,
)
    requires
        read_at_end(t) matches Some(v) ==> x[v as int] == y[v as int],
    ensures
        term_code(l, x, regs, t) == term_code(l, y, regs, t),
{
}

} // verus!
