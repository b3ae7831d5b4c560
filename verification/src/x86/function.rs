//! The machine code of a function: its frame, its blocks and the branches
//! between them.
use crate::bytes::{le32, lemma_u32_at, put_at, u32_at, wrap32};
use crate::ir::{Block, BlockId, Instr, IrFunction, ReceiverKind, Terminator};
use crate::target::Sym;
use crate::x86::emit::{
    emitted, extends, home_ok, modrm, modrm_byte, rex, rex_byte, CallTarget, Emit, Emitter, ARG,
    MAX_SLOTS, RAX, RDI,
};
use crate::x86::instrs::{
    clamp, encodable, home, homes_ok, in_range, instr_code, min, uses_exc, Context, Cx,
};
use crate::x86::liveness::block_ok;
use crate::x86::regalloc::{
    allocatable, allocate, allocation, homes_exist, homes_number, Allocation, Loc, Phys, POOL,
};
use vstd::prelude::*;

verus! {

/// Whether some value lives in `r`.
pub open spec fn lives_in(loc: Seq<Loc>, r: Phys) -> bool {
    exists|v: int| 0 <= v < loc.len() && #[trigger] loc[v] == Loc::Reg(r)
}

/// Those of the first `n` pool registers that some value lives in: the
/// registers to be kept for the caller.
pub open spec fn savers(loc: Seq<Loc>, n: nat) -> Seq<Phys>
    decreases n,
{
    if n == 0 {
        Seq::empty()
    } else if lives_in(loc, POOL@[n - 1]) {
        savers(loc, (n - 1) as nat).push(POOL@[n - 1])
    } else {
        savers(loc, (n - 1) as nat)
    }
}

/// Size of a frame of `spills` slots with `saved` registers pushed behind it:
/// a multiple of 16, plus 8 where an even number of pushes would leave the
/// stack misaligned at calls.
pub open spec fn frame_bytes(spills: int, saved: int) -> int {
    (spills * 8 + 15) / 16 * 16 + if saved % 2 == 0 {
        8int
    } else {
        0
    }
}

/// `sub rsp, n`
pub open spec fn reserve(s: Emit, n: int) -> Emit {
    if n == 0 {
        s
    } else if n <= 120 {
        s.raw(seq![0x48, 0x83, 0xEC, n as u8])
    } else {
        s.raw(seq![0x48, 0x81, 0xEC]).imm32(wrap32(n))
    }
}

/// Pushes the first `n` of `regs`.
pub open spec fn push_regs(s: Emit, regs: Seq<Phys>, n: int) -> Emit
    decreases n,
{
    if n <= 0 {
        s
    } else {
        let r = regs[n - 1].number();
        push_regs(s, regs, n - 1).raw(seq![rex(true, false, r >= 8), (0x50 + r % 8) as u8])
    }
}

/// Pops the first `n` of `regs`, in reverse.
pub open spec fn pop_regs(s: Emit, regs: Seq<Phys>, n: int) -> Emit
    decreases n,
{
    if n <= 0 {
        s
    } else {
        let r = regs[n - 1].number();
        pop_regs(s.raw(seq![rex(true, false, r >= 8), (0x58 + r % 8) as u8]), regs, n - 1)
    }
}

/// Stores the first `n` parameters, which arrive from argument register
/// `first` on, into the homes behind that of virtual register 0. Where the
/// registers or the homes run out, the last one stands in.
pub open spec fn store_params(s: Emit, loc: Seq<Loc>, first: int, n: int) -> Emit
    decreases n,
{
    if n <= 0 {
        s
    } else {
        store_params(s, loc, first, n - 1).put(
            ARG@[min(first + n - 1, 5)],
            loc[clamp(n, loc.len() as int)],
        )
    }
}

/// The entry of a function: the process entry keeps its stack pointer, where
/// that is asked for, before anything is pushed.
pub open spec fn prologue(s: Emit, cx: Cx, f: IrFunction) -> Emit {
    let loc = allocation(f).loc;
    let regs = savers(loc, POOL@.len() as nat);
    let kept = if f.name@ == "@start"@ && cx.uses_argv {
        s.window(RAX, Sym::ArgvRsp).raw(seq![0x48, 0x89, 0x20])
    } else {
        s
    };
    let framed = reserve(
        kept.raw(seq![0x55]).raw(seq![0x48, 0x89, 0xE5]),
        frame_bytes(allocation(f).spills, regs.len() as int),
    );
    let saved = push_regs(framed, regs, regs.len() as int);
    if f.has_receiver() {
        store_params(saved.put(ARG@[0], loc[0]), loc, 1, f.arity as int)
    } else {
        store_params(saved, loc, 0, f.arity as int)
    }
}

/// The blocks laid out so far: where each starts, and the branch sites with
/// the block that each goes to.
#[verifier::ext_equal]
pub struct Laid {
    pub s: Emit,
    pub starts: Seq<usize>,
    pub jumps: Seq<(usize, BlockId)>,
}

impl Laid {
    pub open spec fn then_emit(self, s: Emit) -> Laid {
        Laid { s, ..self }
    }

    /// A branch opcode and a rel32 to the start of block `to`.
    pub open spec fn jump(self, op: Seq<u8>, to: BlockId) -> Laid {
        let head = self.s.raw(op);
        Laid {
            s: head.imm32(0),
            jumps: self.jumps.push((head.code.len() as usize, to)),
            ..self
        }
    }
}

/// The end of a block.
pub open spec fn term_code(l: Laid, loc: Seq<Loc>, regs: Seq<Phys>, t: Terminator) -> Laid {
    let s = l.s;
    let n = regs.len() as int;
    match t {
        Terminator::Ret(Some(v)) => l.then_emit(
            pop_regs(s.get(RAX, home(loc, v)), regs, n).raw(seq![0xC9, 0xC3]),
        ),
        Terminator::Ret(None) => l.then_emit(
            pop_regs(s.raw(seq![0xB8]).imm32(0), regs, n).raw(seq![0xC9, 0xC3]),
        ),
        Terminator::Exit => l.then_emit(
            s.raw(seq![0xB8]).imm32(231).raw(seq![0x31, 0xFF]).raw(seq![0x0F, 0x05]),
        ),
        Terminator::ExitWith(v) => l.then_emit(
            s.get(RDI, home(loc, v)).raw(seq![0xB8]).imm32(231).raw(seq![0x0F, 0x05]),
        ),
        Terminator::Branch { cond: None, if_true, .. } => l.jump(seq![0xE9], if_true),
        Terminator::Branch { cond: Some(c), if_true, if_false } => l.then_emit(
            s.get(RAX, home(loc, c)).raw(seq![rex(true, false, false), 0x85, modrm(3, RAX, RAX)]),
        ).jump(seq![0x0F, 0x85], if_true).jump(seq![0xE9], if_false),
        Terminator::Unwind { src } => l.then_emit(
            s.get(RDI, home(loc, src)).call(CallTarget::HelperExcThrow),
        ),
        Terminator::Rethrow => l.then_emit(s.call(CallTarget::HelperExcRethrow)),
    }
}

/// The first `n` of `instrs`.
pub open spec fn instrs_code(s: Emit, cx: Cx, loc: Seq<Loc>, instrs: Seq<Instr>, n: int) -> Emit
    decreases n,
{
    if n <= 0 {
        s
    } else {
        instr_code(instrs_code(s, cx, loc, instrs, n - 1), cx, loc, instrs[n - 1])
    }
}

/// One block behind the others.
pub open spec fn block_code(l: Laid, cx: Cx, loc: Seq<Loc>, regs: Seq<Phys>, b: Block) -> Laid {
    let started = Laid { starts: l.starts.push(l.s.code.len() as usize), ..l };
    term_code(
        started.then_emit(instrs_code(l.s, cx, loc, b.instrs@, b.instrs@.len() as int)),
        loc,
        regs,
        b.term,
    )
}

/// The first `n` of `blocks`, in layout order.
pub open spec fn blocks_code(
    s: Emit,
    cx: Cx,
    loc: Seq<Loc>,
    regs: Seq<Phys>,
    blocks: Seq<Block>,
    n: int,
) -> Laid
    decreases n,
{
    if n <= 0 {
        Laid { s, starts: Seq::empty(), jumps: Seq::empty() }
    } else {
        block_code(blocks_code(s, cx, loc, regs, blocks, n - 1), cx, loc, regs, blocks[n - 1])
    }
}

/// The distance that a branch at `site` to `start` takes: from the end of
/// the site.
pub open spec fn branch_distance(site: usize, start: usize) -> u32 {
    wrap32(start - (site + 4))
}

/// `code` with the first `n` branch sites filled in.
pub open spec fn patched(
    code: Seq<u8>,
    starts: Seq<usize>,
    jumps: Seq<(usize, BlockId)>,
    n: int,
) -> Seq<u8>
    decreases n,
{
    if n <= 0 {
        code
    } else {
        let (site, to) = jumps[n - 1];
        put_at(
            patched(code, starts, jumps, n - 1),
            site as int,
            le32(branch_distance(site, starts[to as int])),
        )
    }
}

/// The blocks of `f` behind its prologue, branch sites still open.
#[verifier::opaque]
pub open spec fn laid_out(s: Emit, cx: Cx, f: IrFunction) -> Laid {
    let loc = allocation(f).loc;
    blocks_code(
        prologue(s, cx, f),
        cx,
        loc,
        savers(loc, POOL@.len() as nat),
        f.blocks@,
        f.blocks@.len() as int,
    )
}

/// What is emitted behind `s` for `f`.
#[verifier::opaque]
pub open spec fn function_code(s: Emit, cx: Cx, f: IrFunction) -> Emit {
    let l = laid_out(s, cx, f);
    Emit { code: patched(l.s.code, l.starts, l.jumps, l.jumps.len() as int), ..l.s }
}

// ---- what can be encoded

/// Whether `t` names virtual registers below `n` only.
pub open spec fn term_in_range(t: Terminator, n: int) -> bool {
    match t {
        Terminator::Ret(Some(v)) => v.0 < n,
        Terminator::ExitWith(v) => v.0 < n,
        Terminator::Unwind { src } => src.0 < n,
        Terminator::Branch { cond: Some(c), .. } => c.0 < n,
        _ => true,
    }
}

/// Whether `b` calls on the exception runtime.
pub open spec fn block_uses_exc(b: Block) -> bool {
    ||| b.term is Unwind
    ||| b.term is Rethrow
    ||| exists|k: int| 0 <= k < b.instrs@.len() && uses_exc(#[trigger] b.instrs@[k])
}

/// Whether `b` builds the argument array.
pub open spec fn block_uses_argv(b: Block) -> bool {
    exists|k: int| 0 <= k < b.instrs@.len() && #[trigger] b.instrs@[k] is BuildArgv
}

/// Whether this target has code for `b`, in a function of `n` virtual
/// registers.
pub open spec fn block_encodable(cx: Cx, exc: bool, b: Block, n: int) -> bool {
    &&& forall|k: int|
        0 <= k < b.instrs@.len() ==> in_range(#[trigger] b.instrs@[k], n) && encodable(
            cx,
            b.instrs@[k],
        )
    &&& term_in_range(b.term, n)
    &&& block_uses_exc(b) ==> exc
    &&& block_uses_argv(b) ==> cx.uses_argv
}

/// Whether this target has code for `f`.
#[verifier::opaque]
pub open spec fn function_encodable(cx: Cx, exc: bool, f: IrFunction) -> bool {
    &&& allocatable(f)
    &&& allocation(f).spills <= MAX_SLOTS
    &&& forall|b: int|
        0 <= b < f.blocks@.len() ==> block_encodable(
            cx,
            exc,
            #[trigger] f.blocks@[b],
            f.vregs as int,
        )
}

// ---- emission

fn lives(loc: &Vec<Loc>, r: Phys) -> (y: bool)
    ensures
        y == lives_in(loc@, r),
{
    let mut v: usize = 0;
    while v < loc.len()
        invariant
            v <= loc@.len(),
            forall|k: int| 0 <= k < v ==> #[trigger] loc@[k] != Loc::Reg(r),
        decreases loc.len() - v,
    {
        if loc[v] == Loc::Reg(r) {
            return true;
        }
        v += 1;
    }
    false
}

fn saved_registers(loc: &Vec<Loc>) -> (regs: Vec<Phys>)
    ensures
        regs@ == savers(loc@, POOL@.len() as nat),
        regs@.len() <= POOL@.len(),
{
    let mut regs: Vec<Phys> = Vec::new();
    let mut k: usize = 0;
    while k < POOL.len()
        invariant
            k <= POOL@.len(),
            regs@ == savers(loc@, k as nat),
            regs@.len() <= k,
        decreases POOL@.len() - k,
    {
        if lives(loc, POOL[k]) {
            regs.push(POOL[k]);
        }
        k += 1;
    }
    regs
}

impl Emitter {
    fn reserve(&mut self, n: u64)
        requires
            old(self).ok(),
        ensures
            emitted(*old(self), *final(self), reserve(old(self)@, n as int)),
    {
        if n > 0 && n <= 120 {
            self.raw4(0x48, 0x83, 0xEC, n as u8);
        } else if n > 0 {
            self.raw3(0x48, 0x81, 0xEC);
            self.imm32((n % 0x1_0000_0000) as u32);
        }
    }

    fn push_regs(&mut self, regs: &Vec<Phys>)
        requires
            old(self).ok(),
        ensures
            emitted(*old(self), *final(self), push_regs(old(self)@, regs@, regs@.len() as int)),
    {
        let ghost start = self@;
        let mut k: usize = 0;
        while k < regs.len()
            invariant
                k <= regs@.len(),
                self.ok(),
                self.exc == old(self).exc,
                self.argv == old(self).argv,
                extends(start.code, self.code@),
                self@ == push_regs(start, regs@, k as int),
            decreases regs.len() - k,
        {
            let r: Phys = regs[k];
            self.raw2(rex_byte(true, false, r.needs_rex()), 0x50 + r.id() % 8);
            k += 1;
        }
    }

    fn pop_regs(&mut self, regs: &Vec<Phys>)
        requires
            old(self).ok(),
        ensures
            emitted(*old(self), *final(self), pop_regs(old(self)@, regs@, regs@.len() as int)),
    {
        let ghost start = self@;
        let ghost whole = pop_regs(self@, regs@, regs@.len() as int);
        let mut k: usize = regs.len();
        while k > 0
            invariant
                k <= regs@.len(),
                self.ok(),
                self.exc == old(self).exc,
                self.argv == old(self).argv,
                extends(start.code, self.code@),
                pop_regs(self@, regs@, k as int) == whole,
            decreases k,
        {
            k -= 1;
            let r: Phys = regs[k];
            self.raw2(rex_byte(true, false, r.needs_rex()), 0x58 + r.id() % 8);
        }
    }

    fn store_params(&mut self, loc: &Vec<Loc>, first: usize, n: usize)
        requires
            old(self).ok(),
            homes_ok(loc@),
            n > 0 ==> loc@.len() > 0,
            first <= 1,
        ensures
            emitted(
                *old(self),
                *final(self),
                store_params(old(self)@, loc@, first as int, n as int),
            ),
    {
        let ghost start = self@;
        let mut p: usize = 0;
        while p < n
            invariant
                p <= n,
                homes_ok(loc@),
                n > 0 ==> loc@.len() > 0,
                first <= 1,
                self.ok(),
                self.exc == old(self).exc,
                self.argv == old(self).argv,
                extends(start.code, self.code@),
                self@ == store_params(start, loc@, first as int, p as int),
            decreases n - p,
        {
            let last: usize = loc.len() - 1;
            let idx: usize = if p < last {
                p + 1
            } else {
                last
            };
            let arg: usize = if p < 5 {
                if first + p < 5 {
                    first + p
                } else {
                    5
                }
            } else {
                5
            };
            self.put(ARG[arg], loc[idx]);
            p += 1;
        }
    }

    fn prologue(&mut self, cx: &Context, f: &IrFunction, alloc: &Allocation, regs: &Vec<Phys>)
        requires
            old(self).ok(),
            cx.uses_argv ==> old(self).argv,
            allocatable(*f),
            alloc.loc@ == allocation(*f).loc,
            alloc.spills == allocation(*f).spills,
            alloc.loc@.len() == f.vregs,
            homes_ok(alloc.loc@),
            regs@ == savers(alloc.loc@, POOL@.len() as nat),
        ensures
            emitted(*old(self), *final(self), prologue(old(self)@, cx@, *f)),
    {
        if f.name == "@start".to_owned() && cx.uses_argv {
            self.abs64_window(RAX, Sym::ArgvRsp);
            self.raw3(0x48, 0x89, 0x20);
        }
        self.raw1(0x55);
        self.raw3(0x48, 0x89, 0xE5);
        let pad: u64 = if regs.len() % 2 == 0 {
            8
        } else {
            0
        };
        self.reserve((alloc.spills as u64 * 8 + 15) / 16 * 16 + pad);
        self.push_regs(regs);
        match f.receiver {
            ReceiverKind::This => {
                self.put(ARG[0], alloc.loc[0]);
                self.store_params(&alloc.loc, 1, f.arity);
            },
            ReceiverKind::Static => {
                self.store_params(&alloc.loc, 0, f.arity);
            },
        }
    }

    /// Emits a branch opcode of one or two bytes and an open rel32, whose
    /// site is returned.
    fn open_jump(&mut self, conditional: bool) -> (site: usize)
        requires
            old(self).ok(),
        ensures
            ({
                let head = old(self)@.raw(
                    if conditional {
                        seq![0x0F, 0x85]
                    } else {
                        seq![0xE9]
                    },
                );
                emitted(*old(self), *final(self), head.imm32(0)) && site == head.code.len()
            }),
            old(self).code@.len() <= site,
            site + 4 == final(self).code@.len(),
    {
        if conditional {
            self.raw2(0x0F, 0x85);
        } else {
            self.raw1(0xE9);
        }
        let site: usize = self.code.len();
        self.imm32(0);
        site
    }
}

/// Whether the sites in `jumps` lie in `n` bytes of code, from `from` on, one
/// behind the other.
pub open spec fn jumps_ok(jumps: Seq<(usize, BlockId)>, from: int, n: int) -> bool {
    &&& forall|k: int|
        0 <= k < jumps.len() ==> from <= (#[trigger] jumps[k]).0 && jumps[k].0 + 4 <= n
    &&& forall|j: int, k: int|
        0 <= j < k < jumps.len() ==> (#[trigger] jumps[j]).0 + 4 <= (#[trigger] jumps[k]).0
}

/// Whether the branches in `jumps` go to one of `n` blocks.
pub open spec fn targets_ok(jumps: Seq<(usize, BlockId)>, n: int) -> bool {
    forall|k: int| 0 <= k < jumps.len() ==> (#[trigger] jumps[k]).1 < n
}

impl Emitter {
    fn term(
        &mut self,
        loc: &Vec<Loc>,
        regs: &Vec<Phys>,
        t: &Terminator,
        starts: Ghost<Seq<usize>>,
        jumps: &mut Vec<(usize, BlockId)>,
        from: Ghost<int>,
        blocks: Ghost<int>,
    )
        requires
            old(self).ok(),
            homes_ok(loc@),
            term_in_range(*t, loc@.len() as int),
            t is Unwind || t is Rethrow ==> old(self).exc,
            from@ <= old(self).code@.len(),
            jumps_ok(old(jumps)@, from@, old(self).code@.len() as int),
            targets_ok(old(jumps)@, blocks@),
            t matches Terminator::Branch { if_true, if_false, .. } ==> if_true < blocks@
                && if_false < blocks@,
        ensures
            ({
                let l = term_code(
                    Laid { s: old(self)@, starts: starts@, jumps: old(jumps)@ },
                    loc@,
                    regs@,
                    *t,
                );
                &&& emitted(*old(self), *final(self), l.s)
                &&& l.jumps == final(jumps)@
                &&& l.starts == starts@
            }),
            jumps_ok(final(jumps)@, from@, final(self).code@.len() as int),
            targets_ok(final(jumps)@, blocks@),
    {
        match t {
            Terminator::Ret(Some(v)) => {
                self.get(RAX, loc[v.0 as usize]);
                self.pop_regs(regs);
                self.raw2(0xC9, 0xC3);
            },
            Terminator::Ret(None) => {
                self.raw1(0xB8);
                self.imm32(0);
                self.pop_regs(regs);
                self.raw2(0xC9, 0xC3);
            },
            Terminator::Exit => {
                self.raw1(0xB8);
                self.imm32(231);
                self.raw2(0x31, 0xFF);
                self.raw2(0x0F, 0x05);
            },
            Terminator::ExitWith(v) => {
                self.get(RDI, loc[v.0 as usize]);
                self.raw1(0xB8);
                self.imm32(231);
                self.raw2(0x0F, 0x05);
            },
            Terminator::Branch { cond, if_true, if_false } => {
                match cond {
                    None => {
                        let site: usize = self.open_jump(false);
                        jumps.push((site, *if_true));
                    },
                    Some(c) => {
                        self.get(RAX, loc[c.0 as usize]);
                        self.raw3(rex_byte(true, false, false), 0x85, modrm_byte(3, RAX, RAX));
                        let site: usize = self.open_jump(true);
                        jumps.push((site, *if_true));
                        let site: usize = self.open_jump(false);
                        jumps.push((site, *if_false));
                    },
                }
            },
            Terminator::Unwind { src } => {
                self.get(RDI, loc[src.0 as usize]);
                self.call_rel32(CallTarget::HelperExcThrow);
            },
            Terminator::Rethrow => {
                self.call_rel32(CallTarget::HelperExcRethrow);
            },
        }
    }
}

/// Filling in branch sites leaves everything else alone, and each site holds
/// its distance.
pub proof fn lemma_patched(
    code: Seq<u8>,
    starts: Seq<usize>,
    jumps: Seq<(usize, BlockId)>,
    n: int,
    from: int,
)
    requires
        0 <= n <= jumps.len(),
        0 <= from,
        jumps_ok(jumps, from, code.len() as int),
    ensures
        patched(code, starts, jumps, n).len() == code.len(),
        forall|i: int| 0 <= i < from ==> #[trigger] patched(code, starts, jumps, n)[i] == code[i],
        forall|k: int|
            0 <= k < n ==> u32_at(
                patched(code, starts, jumps, n),
                (#[trigger] jumps[k]).0 as int,
            ) == branch_distance(jumps[k].0, starts[jumps[k].1 as int]),
    decreases n,
{
    if n > 0 {
        lemma_patched(code, starts, jumps, n - 1, from);
        let before = patched(code, starts, jumps, n - 1);
        let after = patched(code, starts, jumps, n);
        let (site, to) = jumps[n - 1];
        let rel = le32(branch_distance(site, starts[to as int]));
        assert(jumps[n - 1].0 + 4 <= code.len());
        assert forall|k: int| 0 <= k < n implies u32_at(
            after,
            (#[trigger] jumps[k]).0 as int,
        ) == branch_distance(jumps[k].0, starts[jumps[k].1 as int]) by {
            let at = jumps[k].0 as int;
            if k < n - 1 {
                assert(jumps[k].0 + 4 <= jumps[n - 1].0);
                assert(after[at] == before[at] && after[at + 1] == before[at + 1] && after[at + 2]
                    == before[at + 2] && after[at + 3] == before[at + 3]);
            } else {
                assert(after.subrange(at, at + 4) =~= rel);
                lemma_u32_at(after, at, branch_distance(site, starts[to as int]));
            }
        }
    }
}

impl Emitter {
    fn block(
        &mut self,
        cx: &Context,
        loc: &Vec<Loc>,
        regs: &Vec<Phys>,
        b: &Block,
        starts: &mut Vec<usize>,
        jumps: &mut Vec<(usize, BlockId)>,
        from: Ghost<int>,
        blocks: Ghost<int>,
    )
        requires
            old(self).ok(),
            homes_ok(loc@),
            cx.uses_argv ==> old(self).argv,
            block_encodable(cx@, old(self).exc, *b, loc@.len() as int),
            from@ <= old(self).code@.len(),
            jumps_ok(old(jumps)@, from@, old(self).code@.len() as int),
            targets_ok(old(jumps)@, blocks@),
            b.term matches Terminator::Branch { if_true, if_false, .. } ==> if_true < blocks@
                && if_false < blocks@,
        ensures
            ({
                let l = block_code(
                    Laid { s: old(self)@, starts: old(starts)@, jumps: old(jumps)@ },
                    cx@,
                    loc@,
                    regs@,
                    *b,
                );
                &&& emitted(*old(self), *final(self), l.s)
                &&& l.jumps == final(jumps)@
                &&& l.starts == final(starts)@
            }),
            final(starts)@.len() == old(starts)@.len() + 1,
            jumps_ok(final(jumps)@, from@, final(self).code@.len() as int),
            targets_ok(final(jumps)@, blocks@),
    {
        starts.push(self.code.len());
        let ghost start = self@;
        let mut k: usize = 0;
        while k < b.instrs.len()
            invariant
                k <= b.instrs@.len(),
                self.ok(),
                self.exc == old(self).exc,
                self.argv == old(self).argv,
                homes_ok(loc@),
                cx.uses_argv ==> self.argv,
                block_encodable(cx@, self.exc, *b, loc@.len() as int),
                extends(start.code, self.code@),
                self@ == instrs_code(start, cx@, loc@, b.instrs@, k as int),
            decreases b.instrs.len() - k,
        {
            proof {
                assert(in_range(b.instrs@[k as int], loc@.len() as int));
                assert(uses_exc(b.instrs@[k as int]) ==> block_uses_exc(*b));
                assert(b.instrs@[k as int] is BuildArgv ==> block_uses_argv(*b));
            }
            self.instr(cx, loc, &b.instrs[k]);
            k += 1;
        }
        self.term(loc, regs, &b.term, Ghost(starts@), jumps, from, blocks);
    }

    /// Emits `f`. Every branch of its code lands on the start of its block.
    pub fn emit_function(&mut self, cx: &Context, f: &IrFunction)
        requires
            old(self).ok(),
            cx.uses_argv ==> old(self).argv,
            function_encodable(cx@, old(self).exc, *f),
        ensures
            emitted(*old(self), *final(self), function_code(old(self)@, cx@, *f)),
            branches_land(final(self)@.code, laid_out(old(self)@, cx@, *f)),
    {
        proof {
            reveal(function_encodable);
            reveal(function_code);
            reveal(laid_out);
        }
        let alloc: Allocation = allocate(f);
        let loc: &Vec<Loc> = &alloc.loc;
        let ghost start = *self;
        let ghost from = self.code@.len() as int;
        let ghost nb = f.blocks@.len() as int;
        proof {
            homes_number(*f);
            assert forall|v: int| 0 <= v < loc@.len() implies home_ok(#[trigger] loc@[v]) by {
                homes_exist(*f, v as u32);
            }
        }
        let regs: Vec<Phys> = saved_registers(loc);
        self.prologue(cx, f, &alloc, &regs);
        let ghost entered = self@;
        let mut starts: Vec<usize> = Vec::new();
        let mut jumps: Vec<(usize, BlockId)> = Vec::new();
        let mut k: usize = 0;
        while k < f.blocks.len()
            invariant
                k <= f.blocks@.len(),
                nb == f.blocks@.len(),
                loc@.len() == f.vregs,
                homes_ok(loc@),
                cx.uses_argv ==> self.argv,
                function_encodable(cx@, self.exc, *f),
                self.exc == start.exc,
                self.argv == start.argv,
                self.ok(),
                from <= self.code@.len(),
                from == start.code@.len(),
                extends(start.code@, self.code@),
                starts@.len() == k,
                jumps_ok(jumps@, from, self.code@.len() as int),
                targets_ok(jumps@, nb),
                (Laid { s: self@, starts: starts@, jumps: jumps@ }) == blocks_code(
                    entered,
                    cx@,
                    loc@,
                    regs@,
                    f.blocks@,
                    k as int,
                ),
            decreases f.blocks.len() - k,
        {
            proof {
                reveal(function_encodable);
                assert(block_encodable(cx@, self.exc, f.blocks@[k as int], f.vregs as int));
                assert(block_ok(*f, f.blocks@[k as int]));
            }
            self.block(
                cx,
                loc,
                &regs,
                &f.blocks[k],
                &mut starts,
                &mut jumps,
                Ghost(from),
                Ghost(nb),
            );
            k += 1;
        }
        let ghost laid = self@;
        proof {
            assert((Laid { s: self@, starts: starts@, jumps: jumps@ }) == laid_out(
                start@,
                cx@,
                *f,
            ));
        }
        let mut j: usize = 0;
        while j < jumps.len()
            invariant
                j <= jumps@.len(),
                nb == starts@.len(),
                self.exc == start.exc,
                self.argv == start.argv,
                self.ok(),
                jumps_ok(jumps@, from, laid.code.len() as int),
                targets_ok(jumps@, nb),
                0 <= from,
                self@ == (Emit {
                    code: patched(laid.code, starts@, jumps@, j as int),
                    ..laid
                }),
            decreases jumps.len() - j,
        {
            proof {
                lemma_patched(laid.code, starts@, jumps@, j as int, from);
                assert(jumps@[j as int].1 < nb);
                assert(jumps@[j as int].0 + 4 <= self.code.len());
            }
            let (site, to) = jumps[j];
            self.patch(site, starts[to as usize]);
            j += 1;
        }
        proof {
            lemma_patched(laid.code, starts@, jumps@, j as int, from);
            assert(extends(start.code@, self.code@)) by {
                assert forall|i: int| 0 <= i < start.code@.len() implies #[trigger] self.code@[i]
                    == start.code@[i] by {
                    assert(laid.code[i] == start.code@[i]);
                }
            }
        }
    }
}

/// Whether each branch site of `l` lies in `code` and holds the distance to
/// the start of the block that it goes to.
pub open spec fn branches_land(code: Seq<u8>, l: Laid) -> bool {
    forall|k: int|
        0 <= k < l.jumps.len() ==> {
            let (site, to) = #[trigger] l.jumps[k];
            &&& site + 4 <= code.len()
            &&& to < l.starts.len()
            &&& u32_at(code, site as int) == branch_distance(site, l.starts[to as int])
        }
}

/// Code behind them leaves branches as they are.
pub proof fn branches_stay(a: Seq<u8>, b: Seq<u8>, l: Laid)
    requires
        branches_land(a, l),
        extends(a, b),
    ensures
        branches_land(b, l),
{
    assert forall|k: int| 0 <= k < l.jumps.len() implies {
        let (site, to) = #[trigger] l.jumps[k];
        &&& site + 4 <= b.len()
        &&& to < l.starts.len()
        &&& u32_at(b, site as int) == branch_distance(site, l.starts[to as int])
    } by {
        let at = l.jumps[k].0 as int;
        assert(b[at] == a[at] && b[at + 1] == a[at + 1] && b[at + 2] == a[at + 2] && b[at + 3]
            == a[at + 3]);
    }
}

// ---- laws of the frame

proof fn lemma_savers(loc: Seq<Loc>, n: nat, k: int)
    requires
        0 <= k < n <= POOL@.len(),
        lives_in(loc, POOL@[k]),
    ensures
        savers(loc, n).contains(POOL@[k]),
    decreases n,
{
    let m = (n - 1) as nat;
    if k == n - 1 {
        assert(savers(loc, n)[savers(loc, m).len() as int] == POOL@[k]);
    } else {
        lemma_savers(loc, m, k);
        let i = choose|i: int| 0 <= i < savers(loc, m).len() && savers(loc, m)[i] == POOL@[k];
        assert(savers(loc, n)[i] == POOL@[k]);
    }
}

/// A register that a value lives in is saved for the caller.
pub proof fn homes_are_saved(f: IrFunction, v: u32)
    requires
        v < allocation(f).loc.len(),
        allocation(f).loc[v as int] is Reg,
    ensures
        savers(allocation(f).loc, POOL@.len() as nat).contains(allocation(f).loc[v as int]->Reg_0),
{
    let loc = allocation(f).loc;
    let r = loc[v as int]->Reg_0;
    assert(loc[v as int] == Loc::Reg(r));
    assert(lives_in(loc, r));
    assert(POOL@[0] == Phys::Rbx && POOL@[1] == Phys::R12 && POOL@[2] == Phys::R13 && POOL@[3]
        == Phys::R14 && POOL@[4] == Phys::R15);
    let k = match r {
        Phys::Rbx => 0int,
        Phys::R12 => 1,
        Phys::R13 => 2,
        Phys::R14 => 3,
        Phys::R15 => 4,
    };
    lemma_savers(loc, POOL@.len() as nat, k);
}

/// Frame and saved registers together take an odd number of words, however
/// many slots and registers there are.
pub proof fn frames_keep_parity(spills: int, saved: int)
    requires
        0 <= spills,
        0 <= saved,
    ensures
        (frame_bytes(spills, saved) + 8 * saved) % 16 == 8,
        frame_bytes(spills, saved) >= 8 * spills,
{
}

} // verus!
