//! Where control goes: the code of a function as it stands in the end, and
//! the branches at the ends of its blocks.
use crate::bytes::{le32, u32_at, wrap32};
use crate::ir::{BlockId, Instr, IrFunction, Terminator, VReg};
use crate::x86::arithmetic::run_op;
use crate::x86::emit::{extends, modrm, rex, Emit, RAX};
use crate::x86::fragments::{
    agrees, in_frame, lemma_front, lemma_get_front, lemma_plain, lemma_reg_operand, lemma_rex,
    quiet, run_get, value,
};
use crate::x86::function::{
    block_encodable, blocks_code, branch_distance, function_code, function_encodable, instrs_code,
    jumps_ok, laid_out, lemma_patched, patched, prologue, savers, term_code, Laid,
};
use crate::x86::instrs::{encodable, home, Cx};
use crate::x86::liveness::{block_ok, succ};
use crate::x86::machine::{
    decode, lemma_onward, prefixes, reaches, signed32, Alu, Cpu, Fpu, Op, Place,
};
use crate::x86::regalloc::{allocatable, allocation, Loc, Phys, POOL};
use crate::x86::windows::{lemma_instrs_append, lemma_term_appends};
use vstd::prelude::*;

verus! {

/// The first `b` blocks of `f`, branch sites still open.
spec fn laid(s: Emit, cx: Cx, f: IrFunction, b: int) -> Laid {
    let loc = allocation(f).loc;
    blocks_code(prologue(s, cx, f), cx, loc, savers(loc, POOL@.len() as nat), f.blocks@, b)
}

/// Where block `b` of `f` starts: behind the entry and the blocks before it.
pub closed spec fn block_at(s: Emit, cx: Cx, f: IrFunction, b: int) -> int {
    laid(s, cx, f, b).s.code.len() as int
}

/// The code up to the end of the first `k` instructions of block `b`, when it
/// was emitted.
pub closed spec fn before(s: Emit, cx: Cx, f: IrFunction, b: int, k: int) -> Emit {
    instrs_code(laid(s, cx, f, b).s, cx, allocation(f).loc, f.blocks@[b].instrs@, k)
}

/// Where the end of block `b`, behind its instructions, starts.
pub open spec fn end_at(s: Emit, cx: Cx, f: IrFunction, b: int) -> int {
    before(s, cx, f, b, f.blocks@[b].instrs@.len() as int).code.len() as int
}

/// Whether the code of `f` has an end that can be counted to, and branched
/// over.
pub open spec fn fits(s: Emit, cx: Cx, f: IrFunction) -> bool {
    function_code(s, cx, f).code.len() < 0x8000_0000
}

// ---- the blocks in their order

proof fn lemma_encodable(cx: Cx, exc: bool, f: IrFunction, b: int)
    requires
        function_encodable(cx, exc, f),
        0 <= b < f.blocks@.len(),
    ensures
        forall|k: int|
            0 <= k < f.blocks@[b].instrs@.len() ==> encodable(
                cx,
                #[trigger] f.blocks@[b].instrs@[k],
            ),
        block_ok(f, f.blocks@[b]),
        allocatable(f),
{
    reveal(function_encodable);
    assert(block_encodable(cx, exc, f.blocks@[b], f.vregs as int));
}

/// The end of block `b`, in the making.
spec fn ending(s: Emit, cx: Cx, f: IrFunction, b: int) -> Laid {
    let l = laid(s, cx, f, b);
    let started = Laid { starts: l.starts.push(l.s.code.len() as usize), ..l };
    started.then_emit(before(s, cx, f, b, f.blocks@[b].instrs@.len() as int))
}

proof fn lemma_block(s: Emit, cx: Cx, exc: bool, f: IrFunction, b: int)
    requires
        function_encodable(cx, exc, f),
        0 <= b < f.blocks@.len(),
    ensures
        ({
            let loc = allocation(f).loc;
            let regs = savers(loc, POOL@.len() as nat);
            let e = ending(s, cx, f, b);
            &&& laid(s, cx, f, b + 1) == term_code(e, loc, regs, f.blocks@[b].term)
            &&& extends(laid(s, cx, f, b).s.code, e.s.code)
            &&& extends(e.s.code, laid(s, cx, f, b + 1).s.code)
            &&& e.jumps == laid(s, cx, f, b).jumps
            &&& laid(s, cx, f, b + 1).starts == laid(s, cx, f, b).starts.push(
                laid(s, cx, f, b).s.code.len() as usize,
            )
        }),
{
    let loc = allocation(f).loc;
    let regs = savers(loc, POOL@.len() as nat);
    let blk = f.blocks@[b];
    lemma_encodable(cx, exc, f, b);
    lemma_instrs_append(laid(s, cx, f, b).s, cx, loc, blk.instrs@, blk.instrs@.len() as int);
    lemma_term_appends(cx, ending(s, cx, f, b), loc, regs, blk.term);
}

/// What a block adds to the branch sites: they lie in its end.
proof fn lemma_added(s: Emit, cx: Cx, exc: bool, f: IrFunction, b: int)
    requires
        function_encodable(cx, exc, f),
        0 <= b < f.blocks@.len(),
        laid(s, cx, f, b + 1).s.code.len() <= usize::MAX,
        jumps_ok(laid(s, cx, f, b).jumps, 0, laid(s, cx, f, b).s.code.len() as int),
    ensures
        ({
            let l = laid(s, cx, f, b);
            let n = laid(s, cx, f, b + 1);
            let at = end_at(s, cx, f, b);
            &&& l.jumps.len() <= n.jumps.len()
            &&& forall|k: int| 0 <= k < l.jumps.len() ==> #[trigger] n.jumps[k] == l.jumps[k]
            &&& forall|k: int| l.jumps.len() <= k < n.jumps.len() ==> at <= (#[trigger] n.jumps[k]).0
            &&& jumps_ok(n.jumps, 0, n.s.code.len() as int)
        }),
{
    let loc = allocation(f).loc;
    let regs = savers(loc, POOL@.len() as nat);
    lemma_block(s, cx, exc, f, b);
    let e = ending(s, cx, f, b);
    let l = laid(s, cx, f, b);
    let n = laid(s, cx, f, b + 1);
    match f.blocks@[b].term {
        Terminator::Branch { cond: None, if_true, .. } => {
            assert(n == e.jump(seq![0xE9], if_true));
            assert(n.s.code.len() == e.s.code.len() + 1 + 4);
        },
        Terminator::Branch { cond: Some(c), if_true, if_false } => {
            let t = e.s.get(RAX, home(loc, c)).raw(
                seq![rex(true, false, false), 0x85, modrm(3, RAX, RAX)],
            );
            lemma_appended(e.s, RAX, home(loc, c));
            let one = e.then_emit(t).jump(seq![0x0F, 0x85], if_true);
            assert(one.s.code.len() == t.code.len() + 2 + 4);
            assert(n.s.code.len() == one.s.code.len() + 1 + 4);
        },
        _ => {
            assert(n.jumps == e.jumps);
        },
    }
}

proof fn lemma_appended(s: Emit, into: u8, l: Loc)
    ensures
        s.code.len() <= s.get(into, l).code.len(),
{
}

/// Blocks that come later leave what came before in place.
proof fn lemma_order(s: Emit, cx: Cx, exc: bool, f: IrFunction, b: int, n: int)
    requires
        function_encodable(cx, exc, f),
        0 <= b <= n <= f.blocks@.len(),
        laid(s, cx, f, n).s.code.len() <= usize::MAX,
    ensures
        ({
            let l = laid(s, cx, f, b);
            let m = laid(s, cx, f, n);
            &&& extends(l.s.code, m.s.code)
            &&& jumps_ok(l.jumps, 0, l.s.code.len() as int)
            &&& jumps_ok(m.jumps, 0, m.s.code.len() as int)
            &&& l.jumps.len() <= m.jumps.len()
            &&& forall|k: int| 0 <= k < l.jumps.len() ==> #[trigger] m.jumps[k] == l.jumps[k]
            &&& forall|k: int|
                l.jumps.len() <= k < m.jumps.len() ==> l.s.code.len() <= (#[trigger] m.jumps[k]).0
            &&& m.starts.len() == n
            &&& forall|k: int| 0 <= k < n ==> #[trigger] m.starts[k] == block_at(s, cx, f, k)
        }),
    decreases n,
{
    if n > 0 {
        let p = laid(s, cx, f, n - 1);
        let m = laid(s, cx, f, n);
        let l = laid(s, cx, f, b);
        lemma_block(s, cx, exc, f, n - 1);
        if b < n {
            lemma_order(s, cx, exc, f, b, n - 1);
            lemma_added(s, cx, exc, f, n - 1);
            assert forall|i: int| 0 <= i < l.s.code.len() implies #[trigger] m.s.code[i]
                == l.s.code[i] by {
                let e = ending(s, cx, f, n - 1);
                assert(p.s.code[i] == l.s.code[i]);
                assert(e.s.code[i] == p.s.code[i]);
            }
            assert forall|k: int| 0 <= k < l.jumps.len() implies #[trigger] m.jumps[k]
                == l.jumps[k] by {
                assert(p.jumps[k] == l.jumps[k]);
            }
            assert forall|k: int| l.jumps.len() <= k < m.jumps.len() implies l.s.code.len() <= (
            #[trigger] m.jumps[k]).0 by {
                if k < p.jumps.len() {
                    assert(m.jumps[k] == p.jumps[k]);
                }
            }
        } else {
            lemma_order(s, cx, exc, f, n - 1, n - 1);
            lemma_added(s, cx, exc, f, n - 1);
        }
        assert forall|k: int| 0 <= k < n implies #[trigger] m.starts[k] == block_at(
            s,
            cx,
            f,
            k,
        ) by {
            if k < n - 1 {
                assert(p.starts[k] == block_at(s, cx, f, k));
            }
        }
    }
}

/// A byte that belongs to no branch site is left alone.
proof fn lemma_elsewhere(
    code: Seq<u8>,
    starts: Seq<usize>,
    jumps: Seq<(usize, BlockId)>,
    n: int,
    i: int,
)
    requires
        0 <= n <= jumps.len(),
        0 <= i < code.len(),
        forall|k: int| 0 <= k < n ==> i < (#[trigger] jumps[k]).0 || i >= jumps[k].0 + 4,
    ensures
        patched(code, starts, jumps, n)[i] == code[i],
        patched(code, starts, jumps, n).len() == code.len(),
    decreases n,
{
    if n > 0 {
        lemma_elsewhere(code, starts, jumps, n - 1, i);
        assert(i < jumps[n - 1].0 || i >= jumps[n - 1].0 + 4);
        assert(le32(branch_distance(jumps[n - 1].0, starts[jumps[n - 1].1 as int])).len() == 4);
    }
}

proof fn lemma_patched_len(
    code: Seq<u8>,
    starts: Seq<usize>,
    jumps: Seq<(usize, BlockId)>,
    n: int,
)
    ensures
        patched(code, starts, jumps, n).len() == code.len(),
    decreases n,
{
    if n > 0 {
        lemma_patched_len(code, starts, jumps, n - 1);
    }
}

/// The code of a function as it stands in the end: the blocks with their
/// branch sites filled in.
proof fn lemma_final(s: Emit, cx: Cx, f: IrFunction)
    ensures
        ({
            let l = laid(s, cx, f, f.blocks@.len() as int);
            let code = function_code(s, cx, f).code;
            &&& code == patched(l.s.code, l.starts, l.jumps, l.jumps.len() as int)
            &&& code.len() == l.s.code.len()
        }),
{
    reveal(function_code);
    reveal(laid_out);
    let l = laid(s, cx, f, f.blocks@.len() as int);
    lemma_patched_len(l.s.code, l.starts, l.jumps, l.jumps.len() as int);
}

/// What is known of block `b` in the end.
proof fn lemma_stands(s: Emit, cx: Cx, exc: bool, f: IrFunction, b: int)
    requires
        function_encodable(cx, exc, f),
        0 <= b < f.blocks@.len(),
        fits(s, cx, f),
    ensures
        ({
            let code = function_code(s, cx, f).code;
            let n = f.blocks@.len() as int;
            let l = laid(s, cx, f, b);
            let m = laid(s, cx, f, b + 1);
            let w = laid(s, cx, f, n);
            &&& block_at(s, cx, f, b) <= end_at(s, cx, f, b) <= m.s.code.len() <= code.len()
            &&& code.len() == w.s.code.len()
            &&& w.starts.len() == n
            &&& forall|k: int| 0 <= k < n ==> #[trigger] w.starts[k] == block_at(s, cx, f, k)
            &&& forall|i: int|
                l.s.code.len() <= i < end_at(s, cx, f, b) ==> #[trigger] code[i] == m.s.code[i]
            &&& forall|i: int|
                end_at(s, cx, f, b) <= i < m.s.code.len() && (forall|k: int|
                    l.jumps.len() <= k < m.jumps.len() ==> i < (#[trigger] m.jumps[k]).0 || i
                        >= m.jumps[k].0 + 4) ==> #[trigger] code[i] == m.s.code[i]
            &&& forall|k: int|
                l.jumps.len() <= k < m.jumps.len() ==> u32_at(
                    code,
                    (#[trigger] m.jumps[k]).0 as int,
                ) == wrap32(
                    w.starts[m.jumps[k].1 as int] - (m.jumps[k].0 + 4),
                )
        }),
{
    let n = f.blocks@.len() as int;
    let code = function_code(s, cx, f).code;
    let l = laid(s, cx, f, b);
    let m = laid(s, cx, f, b + 1);
    let w = laid(s, cx, f, n);
    lemma_final(s, cx, f);
    lemma_order(s, cx, exc, f, b, n);
    lemma_order(s, cx, exc, f, b + 1, n);
    lemma_block(s, cx, exc, f, b);
    lemma_added(s, cx, exc, f, b);
    lemma_patched(w.s.code, w.starts, w.jumps, w.jumps.len() as int, 0);
    let e = end_at(s, cx, f, b);
    assert forall|i: int| l.s.code.len() <= i < e implies #[trigger] code[i] == m.s.code[i] by {
        assert forall|k: int| 0 <= k < w.jumps.len() implies i < (#[trigger] w.jumps[k]).0 || i
            >= w.jumps[k].0 + 4 by {
            if k < l.jumps.len() {
                assert(w.jumps[k] == l.jumps[k]);
            } else if k < m.jumps.len() {
                assert(w.jumps[k] == m.jumps[k]);
            }
        }
        lemma_elsewhere(w.s.code, w.starts, w.jumps, w.jumps.len() as int, i);
        assert(w.s.code[i] == m.s.code[i]);
    }
    assert forall|i: int|
        e <= i < m.s.code.len() && (forall|k: int|
            l.jumps.len() <= k < m.jumps.len() ==> i < (#[trigger] m.jumps[k]).0 || i
                >= m.jumps[k].0 + 4) implies #[trigger] code[i] == m.s.code[i] by {
        assert forall|k: int| 0 <= k < w.jumps.len() implies i < (#[trigger] w.jumps[k]).0 || i
            >= w.jumps[k].0 + 4 by {
            if k < l.jumps.len() {
                assert(w.jumps[k] == l.jumps[k]);
            } else if k < m.jumps.len() {
                assert(w.jumps[k] == m.jumps[k]);
            }
        }
        lemma_elsewhere(w.s.code, w.starts, w.jumps, w.jumps.len() as int, i);
        assert(w.s.code[i] == m.s.code[i]);
    }
    assert forall|k: int| l.jumps.len() <= k < m.jumps.len() implies u32_at(
        code,
        (#[trigger] m.jumps[k]).0 as int,
    ) == wrap32(w.starts[m.jumps[k].1 as int] - (m.jumps[k].0 + 4)) by {
        assert(w.jumps[k] == m.jumps[k]);
    }
}

/// The instructions of a block stand in the code of the function as they
/// were emitted, one behind the other.
pub proof fn blocks_stand_as_emitted(
    s: Emit,
    cx: Cx,
    exc: bool,
    f: IrFunction,
    b: int,
    k: int,
    c: Seq<u8>,
)
    requires
        function_encodable(cx, exc, f),
        0 <= b < f.blocks@.len(),
        0 <= k < f.blocks@[b].instrs@.len(),
        fits(s, cx, f),
        extends(function_code(s, cx, f).code, c),
    ensures
        ({
            let x = before(s, cx, f, b, k);
            let y = before(s, cx, f, b, k + 1);
            &&& y == crate::x86::instrs::instr_code(
                x,
                cx,
                allocation(f).loc,
                f.blocks@[b].instrs@[k],
            )
            &&& agrees(c, x.code.len() as int, y.code)
            &&& k == 0 ==> x.code.len() == block_at(s, cx, f, b)
            &&& k + 1 == f.blocks@[b].instrs@.len() ==> y.code.len() == end_at(s, cx, f, b)
        }),
{
    let blk = f.blocks@[b];
    let n = blk.instrs@.len() as int;
    let loc = allocation(f).loc;
    let x = before(s, cx, f, b, k);
    let y = before(s, cx, f, b, k + 1);
    let z = before(s, cx, f, b, n);
    let code = function_code(s, cx, f).code;
    lemma_encodable(cx, exc, f, b);
    lemma_stands(s, cx, exc, f, b);
    lemma_block(s, cx, exc, f, b);
    lemma_instrs_append(laid(s, cx, f, b).s, cx, loc, blk.instrs@, k);
    lemma_tail(laid(s, cx, f, b).s, cx, loc, blk.instrs@, k, k + 1);
    lemma_tail(laid(s, cx, f, b).s, cx, loc, blk.instrs@, k + 1, n);
    assert forall|i: int| x.code.len() <= i < y.code.len() implies #[trigger] c[i] == y.code[i] by {
        assert(z.code[i] == y.code[i]);
        assert(laid(s, cx, f, b + 1).s.code[i] == z.code[i]);
        assert(code[i] == laid(s, cx, f, b + 1).s.code[i]);
        assert(c[i] == code[i]);
    }
}

/// The end of a block that does not branch stands in the code of the function
/// as it was emitted, behind the instructions of the block.
pub proof fn ends_stand_as_emitted(
    s: Emit,
    cx: Cx,
    exc: bool,
    f: IrFunction,
    b: int,
    c: Seq<u8>,
)
    requires
        function_encodable(cx, exc, f),
        0 <= b < f.blocks@.len(),
        !(f.blocks@[b].term is Branch),
        fits(s, cx, f),
        extends(function_code(s, cx, f).code, c),
    ensures
        ({
            let loc = allocation(f).loc;
            let e = before(s, cx, f, b, f.blocks@[b].instrs@.len() as int);
            agrees(
                c,
                e.code.len() as int,
                term_code(
                    Laid { s: e, starts: Seq::empty(), jumps: Seq::empty() },
                    loc,
                    savers(loc, POOL@.len() as nat),
                    f.blocks@[b].term,
                ).s.code,
            )
        }),
{
    let code = function_code(s, cx, f).code;
    let m = laid(s, cx, f, b + 1);
    let e = before(s, cx, f, b, f.blocks@[b].instrs@.len() as int);
    lemma_stands(s, cx, exc, f, b);
    lemma_block(s, cx, exc, f, b);
    assert(m.jumps == laid(s, cx, f, b).jumps);
    assert forall|i: int| e.code.len() <= i < m.s.code.len() implies #[trigger] c[i]
        == m.s.code[i] by {
        assert(code[i] == m.s.code[i]);
        assert(c[i] == code[i]);
    }
}

proof fn lemma_tail(s: Emit, cx: Cx, loc: Seq<Loc>, instrs: Seq<Instr>, k: int, n: int)
    requires
        0 <= k <= n <= instrs.len(),
        forall|k: int| 0 <= k < instrs.len() ==> encodable(cx, #[trigger] instrs[k]),
    ensures
        extends(instrs_code(s, cx, loc, instrs, k).code, instrs_code(s, cx, loc, instrs, n).code),
    decreases n - k,
{
    if k < n {
        let x = instrs_code(s, cx, loc, instrs, k);
        let y = instrs_code(s, cx, loc, instrs, k + 1);
        let z = instrs_code(s, cx, loc, instrs, n);
        lemma_tail(s, cx, loc, instrs, k + 1, n);
        assert(encodable(cx, instrs[k]));
        let one = seq![instrs[k]];
        lemma_instrs_append(x, cx, loc, one, 1);
        reveal_with_fuel(instrs_code, 2);
        assert(instrs_code(x, cx, loc, one, 1) == y);
        assert forall|i: int| 0 <= i < x.code.len() implies #[trigger] z.code[i] == x.code[i] by {
            assert(y.code[i] == x.code[i]);
        }
    }
}

// ---- branches

proof fn decode_test(c: Seq<u8>, s: Emit)
    requires
        agrees(
            c,
            s.code.len() as int,
            s.raw(seq![rex(true, false, false), 0x85, modrm(3, RAX, RAX)]).code,
        ),
    ensures
        decode(c, s.code.len() as int) == (
            Op::Arith {
                f: Alu::Both,
                wide: true,
                keep: false,
                to: Place::Reg(0),
                from: Place::Reg(0),
            },
            s.code.len() as int + 3,
        ),
{
    let at = s.code.len() as int;
    let b = seq![rex(true, false, false), 0x85, modrm(3, RAX, RAX)];
    lemma_front(c, at, s, b);
    assert(c[at + 0] == b[0] && c[at + 1] == b[1] && c[at + 2] == b[2]);
    lemma_rex(c, at, true, false, false);
    lemma_reg_operand(c, prefixes(c, at), at + 2, RAX, RAX);
    reveal(decode);
}

proof fn decode_jump(c: Seq<u8>, at: int)
    requires
        c[at] == 0xE9,
    ensures
        decode(c, at) == (Op::Jump(signed32(u32_at(c, at + 1))), at + 5),
{
    lemma_plain(c, at);
    reveal(decode);
}

proof fn decode_jump_if(c: Seq<u8>, at: int)
    requires
        c[at] == 0x0F,
        c[at + 1] == 0x85,
    ensures
        decode(c, at) == (Op::JumpIf { cc: 5, d: signed32(u32_at(c, at + 2)) }, at + 6),
{
    lemma_plain(c, at);
    reveal(decode);
}

proof fn lemma_distance(from: int, to: int)
    requires
        0 <= from < 0x8000_0000,
        0 <= to < 0x8000_0000,
    ensures
        signed32(wrap32(to - from)) == to - from,
{
}

proof fn lemma_and(x: u64)
    ensures
        x & x == x,
{
    assert(x & x == x) by (bit_vector);
}

proof fn lemma_same_number(c: Seq<u8>, code: Seq<u8>, at: int)
    requires
        extends(code, c),
        0 <= at,
        at + 4 <= code.len(),
    ensures
        u32_at(c, at) == u32_at(code, at),
{
    assert(c[at] == code[at] && c[at + 1] == code[at + 1] && c[at + 2] == code[at + 2] && c[at + 3]
        == code[at + 3]);
}

/// The bytes of a branch without a condition, in the end.
#[verifier::spinoff_prover]
#[verifier::rlimit(40)]
proof fn lemma_jump_bytes(
    s: Emit,
    cx: Cx,
    exc: bool,
    f: IrFunction,
    b: int,
    c: Seq<u8>,
    to: BlockId,
    at: int,
)
    requires
        function_encodable(cx, exc, f),
        0 <= b < f.blocks@.len(),
        fits(s, cx, f),
        extends(function_code(s, cx, f).code, c),
        f.blocks@[b].term matches Terminator::Branch { cond: None, if_true, .. } && if_true == to,
        at == end_at(s, cx, f, b),
    ensures
        to < f.blocks@.len(),
        c[at] == 0xE9,
        signed32(u32_at(c, at + 1)) == block_at(s, cx, f, to as int) - (at + 5),
{
    let code = function_code(s, cx, f).code;
    let e = ending(s, cx, f, b);
    let n = laid(s, cx, f, b + 1);
    let w = laid(s, cx, f, f.blocks@.len() as int);
    let j = e.jumps.len() as int;
    lemma_encodable(cx, exc, f, b);
    lemma_block(s, cx, exc, f, b);
    lemma_stands(s, cx, exc, f, b);
    assert(n == e.jump(seq![0xE9], to));
    assert(n.jumps[j] == ((at + 1) as usize, to));
    assert(n.jumps.len() == j + 1);
    assert(n.s.code.len() == at + 5);
    assert(n.s.code[at] == 0xE9);
    assert(code[at] == n.s.code[at]);
    assert(c[at] == code[at]);
    lemma_same_number(c, code, at + 1);
    assert(w.starts[to as int] == block_at(s, cx, f, to as int));
    lemma_starts(s, cx, exc, f, to as int);
    lemma_distance(at + 5, block_at(s, cx, f, to as int));
}

/// The code that looks at a condition in home `h`.
spec fn looked(s: Emit, h: Loc) -> Emit {
    s.get(RAX, h).raw(seq![rex(true, false, false), 0x85, modrm(3, RAX, RAX)])
}

/// The shape of a block's end with a condition, when it was emitted.
#[verifier::spinoff_prover]
#[verifier::rlimit(40)]
proof fn lemma_fork(e: Laid, loc: Seq<Loc>, regs: Seq<Phys>, v: VReg, t: BlockId, o: BlockId)
    requires
        term_code(
            e,
            loc,
            regs,
            Terminator::Branch { cond: Some(v), if_true: t, if_false: o },
        ).s.code.len() <= usize::MAX,
    ensures
        ({
            let n = term_code(
                e,
                loc,
                regs,
                Terminator::Branch { cond: Some(v), if_true: t, if_false: o },
            );
            let p = looked(e.s, home(loc, v)).code.len() as int;
            let j = e.jumps.len() as int;
            &&& n.jumps.len() == j + 2
            &&& n.jumps[j] == ((p + 2) as usize, t)
            &&& n.jumps[j + 1] == ((p + 7) as usize, o)
            &&& n.s.code.len() == p + 11
            &&& p <= usize::MAX - 11
            &&& extends(looked(e.s, home(loc, v)).code, n.s.code)
            &&& n.s.code[p] == 0x0F
            &&& n.s.code[p + 1] == 0x85
            &&& n.s.code[p + 6] == 0xE9
            &&& e.s.code.len() <= p
        }),
{
    lemma_appended(e.s, RAX, home(loc, v));
    let t0 = looked(e.s, home(loc, v));
    let one = e.then_emit(t0).jump(seq![0x0F, 0x85], t);
    let n = one.jump(seq![0xE9], o);
    assert(one.s.code.len() == t0.code.len() + 6);
    assert(n.s.code.len() == one.s.code.len() + 5);
}

/// The bytes of a branch with a condition, in the end.
#[verifier::spinoff_prover]
#[verifier::rlimit(40)]
proof fn lemma_fork_bytes(
    s: Emit,
    cx: Cx,
    exc: bool,
    f: IrFunction,
    b: int,
    c: Seq<u8>,
    v: VReg,
    t: BlockId,
    o: BlockId,
)
    requires
        function_encodable(cx, exc, f),
        0 <= b < f.blocks@.len(),
        fits(s, cx, f),
        extends(function_code(s, cx, f).code, c),
        f.blocks@[b].term == (Terminator::Branch { cond: Some(v), if_true: t, if_false: o }),
    ensures
        ({
            let e = ending(s, cx, f, b).s;
            let k = looked(e, home(allocation(f).loc, v));
            let p = k.code.len() as int;
            &&& t < f.blocks@.len()
            &&& o < f.blocks@.len()
            &&& e.code.len() == end_at(s, cx, f, b)
            &&& agrees(c, e.code.len() as int, k.code)
            &&& c[p] == 0x0F
            &&& c[p + 1] == 0x85
            &&& c[p + 6] == 0xE9
            &&& signed32(u32_at(c, p + 2)) == block_at(s, cx, f, t as int) - (p + 6)
            &&& signed32(u32_at(c, p + 7)) == block_at(s, cx, f, o as int) - (p + 11)
        }),
{
    let code = function_code(s, cx, f).code;
    let loc = allocation(f).loc;
    let regs = savers(loc, POOL@.len() as nat);
    let e = ending(s, cx, f, b);
    let n = laid(s, cx, f, b + 1);
    let w = laid(s, cx, f, f.blocks@.len() as int);
    let j = e.jumps.len() as int;
    let k = looked(e.s, home(loc, v));
    let p = k.code.len() as int;
    let at = e.s.code.len() as int;
    lemma_encodable(cx, exc, f, b);
    lemma_block(s, cx, exc, f, b);
    lemma_stands(s, cx, exc, f, b);
    lemma_fork(e, loc, regs, v, t, o);
    assert forall|i: int|
        at <= i < n.s.code.len() && (i < p + 2 || i == p + 6) implies #[trigger] c[i]
        == n.s.code[i] by {
        assert forall|q: int| j <= q < n.jumps.len() implies i < (#[trigger] n.jumps[q]).0 || i
            >= n.jumps[q].0 + 4 by {
            assert(q == j || q == j + 1);
        }
        assert(code[i] == n.s.code[i]);
        assert(c[i] == code[i]);
    }
    assert forall|i: int| at <= i < k.code.len() implies #[trigger] c[i] == k.code[i] by {
        assert(n.s.code[i] == k.code[i]);
    }
    assert(c[p] == n.s.code[p] && c[p + 1] == n.s.code[p + 1] && c[p + 6] == n.s.code[p + 6]);
    assert(n.jumps[j].1 == t && n.jumps[j + 1].1 == o);
    lemma_same_number(c, code, p + 2);
    lemma_same_number(c, code, p + 7);
    lemma_starts(s, cx, exc, f, t as int);
    lemma_starts(s, cx, exc, f, o as int);
    assert(w.starts[t as int] == block_at(s, cx, f, t as int));
    assert(w.starts[o as int] == block_at(s, cx, f, o as int));
    lemma_distance(p + 6, block_at(s, cx, f, t as int));
    lemma_distance(p + 11, block_at(s, cx, f, o as int));
}

/// Running the code that looks at a condition, and the two jumps behind it.
#[verifier::spinoff_prover]
#[verifier::rlimit(40)]
proof fn run_fork(u: Fpu, c: Seq<u8>, s: Emit, h: Loc, m: Cpu, first: int, other: int) -> (x: Cpu)
    requires
        agrees(c, s.code.len() as int, looked(s, h).code),
        m.ip == s.code.len(),
        in_frame(m, h),
        ({
            let p = looked(s, h).code.len() as int;
            &&& c[p] == 0x0F
            &&& c[p + 1] == 0x85
            &&& c[p + 6] == 0xE9
            &&& signed32(u32_at(c, p + 2)) == first - (p + 6)
            &&& signed32(u32_at(c, p + 7)) == other - (p + 11)
        }),
    ensures
        reaches(u, c, m, x),
        quiet(m, x),
        x.ip == if value(m, h) != 0 {
            first
        } else {
            other
        },
{
    let at = m.ip;
    let g = s.get(RAX, h);
    let p = looked(s, h).code.len() as int;
    lemma_front(c, at, g, seq![rex(true, false, false), 0x85, modrm(3, RAX, RAX)]);
    lemma_get_front(c, at, s, RAX, h);
    let y = run_get(u, c, s, RAX, h, m);
    decode_test(c, g);
    let z = run_op(
        u,
        c,
        y,
        Op::Arith {
            f: Alu::Both,
            wide: true,
            keep: false,
            to: Place::Reg(0),
            from: Place::Reg(0),
        },
        p,
    );
    lemma_onward(u, c, m, y, z);
    lemma_and(value(m, h));
    decode_jump_if(c, p);
    let a = run_op(u, c, z, Op::JumpIf { cc: 5, d: first - (p + 6) }, p + 6);
    lemma_onward(u, c, m, z, a);
    if value(m, h) != 0 {
        a
    } else {
        decode_jump(c, p + 6);
        let x = run_op(u, c, a, Op::Jump(other - (p + 11)), p + 11);
        lemma_onward(u, c, m, a, x);
        x
    }
}

/// The block that control goes to from the end of a block, given the value
/// that its condition has.
pub open spec fn target_of(t: Terminator, v: u64) -> BlockId
    recommends
        t is Branch,
{
    match t {
        Terminator::Branch { cond: Some(_), if_true, if_false } => if v != 0 {
            if_true
        } else {
            if_false
        },
        Terminator::Branch { cond: None, if_true, .. } => if_true,
        _ => 0,
    }
}

/// The value that the end of a block looks at.
pub open spec fn condition(m: Cpu, loc: Seq<Loc>, t: Terminator) -> u64 {
    match t {
        Terminator::Branch { cond: Some(v), .. } => value(m, home(loc, v)),
        _ => 0,
    }
}

/// Whether the home of what the end of a block looks at lies in the frame.
pub open spec fn condition_framed(m: Cpu, loc: Seq<Loc>, t: Terminator) -> bool {
    t matches Terminator::Branch { cond: Some(v), .. } ==> in_frame(m, home(loc, v))
}

/// A branch at the end of a block goes to the start of the block that it
/// names: with a condition, of the first where the condition is not zero, and
/// of the other one where it is. It changes no home and no memory, and where
/// it goes is where liveness looks.
pub proof fn branches_go_where_they_say(
    u: Fpu,
    s: Emit,
    cx: Cx,
    exc: bool,
    f: IrFunction,
    b: int,
    c: Seq<u8>,
    m: Cpu,
) -> (x: Cpu)
    requires
        function_encodable(cx, exc, f),
        0 <= b < f.blocks@.len(),
        fits(s, cx, f),
        extends(function_code(s, cx, f).code, c),
        f.blocks@[b].term is Branch,
        m.ip == end_at(s, cx, f, b),
        condition_framed(m, allocation(f).loc, f.blocks@[b].term),
    ensures
        ({
            let t = f.blocks@[b].term;
            let to = target_of(t, condition(m, allocation(f).loc, t)) as int;
            &&& reaches(u, c, m, x)
            &&& quiet(m, x)
            &&& 0 <= to < f.blocks@.len()
            &&& x.ip == block_at(s, cx, f, to)
            &&& succ(f, b, to)
        }),
{
    let at = m.ip;
    match f.blocks@[b].term {
        Terminator::Branch { cond: None, if_true, .. } => {
            lemma_jump_bytes(s, cx, exc, f, b, c, if_true, at);
            decode_jump(c, at);
            let to = block_at(s, cx, f, if_true as int);
            run_op(u, c, m, Op::Jump(to - (at + 5)), at + 5)
        },
        Terminator::Branch { cond: Some(v), if_true, if_false } => {
            lemma_fork_bytes(s, cx, exc, f, b, c, v, if_true, if_false);
            run_fork(
                u,
                c,
                ending(s, cx, f, b).s,
                home(allocation(f).loc, v),
                m,
                block_at(s, cx, f, if_true as int),
                block_at(s, cx, f, if_false as int),
            )
        },
        _ => m,
    }
}

/// The end of a block with a condition, as bytes: the condition is loaded
/// into `rax` and tested, and `jnz` and `jmp` follow, whose distances count
/// from their ends to the starts of the two blocks.
pub proof fn a_fork_is_two_jumps(
    s: Emit,
    cx: Cx,
    exc: bool,
    f: IrFunction,
    b: int,
    v: VReg,
    t: BlockId,
    o: BlockId,
) -> (p: int)
    requires
        function_encodable(cx, exc, f),
        0 <= b < f.blocks@.len(),
        fits(s, cx, f),
        f.blocks@[b].term == (Terminator::Branch { cond: Some(v), if_true: t, if_false: o }),
    ensures
        ({
            let code = function_code(s, cx, f).code;
            let load = Emit { code: code.take(end_at(s, cx, f, b)), ..s }.get(
                RAX,
                home(allocation(f).loc, v),
            ).code;
            &&& load + seq![0x48u8, 0x85, 0xC0] == code.take(p)
            &&& code[p] == 0x0F
            &&& code[p + 1] == 0x85
            &&& p + 6 + signed32(u32_at(code, p + 2)) == block_at(s, cx, f, t as int)
            &&& code[p + 6] == 0xE9
            &&& p + 11 + signed32(u32_at(code, p + 7)) == block_at(s, cx, f, o as int)
        }),
{
    let code = function_code(s, cx, f).code;
    let e = ending(s, cx, f, b).s;
    let h = home(allocation(f).loc, v);
    let bare = Emit { code: code.take(end_at(s, cx, f, b)), ..s };
    let p = looked(e, h).code.len() as int;
    lemma_fork_bytes(s, cx, exc, f, b, code, v, t, o);
    lemma_stands(s, cx, exc, f, b);
    lemma_load(code, e, bare, h);
    p
}

/// A load depends on what stands before it only in its place.
proof fn lemma_load(code: Seq<u8>, e: Emit, bare: Emit, h: Loc)
    requires
        agrees(code, e.code.len() as int, looked(e, h).code),
        bare.code == code.take(e.code.len() as int),
    ensures
        bare.get(RAX, h).code + seq![0x48u8, 0x85, 0xC0] == code.take(
            looked(e, h).code.len() as int,
        ),
{
    let at = e.code.len() as int;
    let x = bare.get(RAX, h).code;
    let y = e.get(RAX, h).code;
    lemma_appended(e, RAX, h);
    lemma_appended(bare, RAX, h);
    assert(x.len() == y.len());
    assert forall|i: int| at <= i < x.len() implies #[trigger] x[i] == y[i] by {}
    assert(rex(true, false, false) == 0x48 && modrm(3, RAX, RAX) == 0xC0);
    let k = looked(e, h).code;
    assert forall|i: int| 0 <= i < k.len() implies #[trigger] code.take(k.len() as int)[i] == (x
        + seq![0x48u8, 0x85, 0xC0])[i] by {
        if i >= at {
            assert(code[i] == k[i]);
        }
    }
}

proof fn lemma_starts(s: Emit, cx: Cx, exc: bool, f: IrFunction, b: int)
    requires
        function_encodable(cx, exc, f),
        0 <= b < f.blocks@.len(),
        fits(s, cx, f),
    ensures
        0 <= block_at(s, cx, f, b) < 0x8000_0000,
{
    lemma_stands(s, cx, exc, f, b);
}

} // verus!
