//! Linear-scan register allocation over callee-saved registers.
//!
//! Only `rbx` and `r12` to `r15` receive allocated values. Caller-saved
//! registers stay reserved for argument passing and emission scratch, so a
//! call can never invalidate an allocated value.
//!
//! The positions of a function number its instructions in layout order, with
//! one more position per block for its terminator. The interval of a virtual
//! register runs from the first to the last position that touches it, both
//! included. Virtual registers whose intervals share a position never share a
//! home ([`homes_are_exclusive`]).
use crate::ir::{Block, Instr, IrFunction, ReceiverKind, Terminator};
use crate::x86::liveness::{
    block_ok, blocks_ok, def_of, defined_before, end_operand, is_table, kills, live_in, live_out,
    live_sets, live_within, read_at_end, read_before, succ, uses_and_defs, uses_of,
};
use vstd::prelude::*;

verus! {

/// Callee-saved physical registers available to the allocator.
#[derive(Debug, Clone, Copy, PartialEq, Eq, PartialOrd, Ord, Structural)]
pub enum Phys {
    Rbx,
    R12,
    R13,
    R14,
    R15,
}

/// The registers that the allocator hands out, lowest index first.
pub const POOL: [Phys; 5] = [Phys::Rbx, Phys::R12, Phys::R13, Phys::R14, Phys::R15];

impl Phys {
    /// The number that the processor knows the register by.
    pub open spec fn number(self) -> u8 {
        match self {
            Phys::Rbx => 3,
            Phys::R12 => 12,
            Phys::R13 => 13,
            Phys::R14 => 14,
            Phys::R15 => 15,
        }
    }

    /// Register identifier for encoding (low 3 bits + REX extension bit).
    pub fn id(self) -> (r: u8)
        ensures
            r == self.number(),
    {
        match self {
            Phys::Rbx => 3,
            Phys::R12 => 12,
            Phys::R13 => 13,
            Phys::R14 => 14,
            Phys::R15 => 15,
        }
    }

    /// Whether naming the register takes a REX extension bit.
    pub fn needs_rex(self) -> (r: bool)
        ensures
            r == (self.number() >= 8),
    {
        match self {
            Phys::Rbx => false,
            _ => true,
        }
    }
}

/// Where a virtual register lives for its whole live range.
#[derive(Debug, Clone, Copy, PartialEq, Eq, Structural)]
pub enum Loc {
    Reg(Phys),
    /// Spill slot k, at `[rbp - 8*(k+1)]`.
    Slot(u32),
}

/// The home of each virtual register, and how many spill slots the frame
/// needs.
#[derive(Debug)]
pub struct Allocation {
    pub loc: Vec<Loc>,
    pub spills: u32,
}

/// The interval of a virtual register.
#[derive(Debug, Clone, Copy, PartialEq, Eq, Structural)]
pub struct Range {
    pub vreg: u32,
    pub start: u32,
    pub end: u32,
}

// ---- positions and intervals

/// Position of the first instruction of block `b`.
pub open spec fn entry(f: IrFunction, b: int) -> int
    decreases b,
{
    if b <= 0 {
        0
    } else {
        entry(f, b - 1) + f.blocks@[b - 1].instrs@.len() + 1
    }
}

/// Position of the terminator of block `b`.
pub open spec fn exit(f: IrFunction, b: int) -> int {
    entry(f, b) + f.blocks@[b].instrs@.len()
}

/// Whether `i` reads or writes `v`.
pub open spec fn mentions(i: Instr, v: u32) -> bool {
    def_of(i) == Some(v) || uses_of(i).contains(v)
}

/// Whether `v` is needed at position `pos`, which lies in block `b`.
pub open spec fn touches_in(f: IrFunction, b: int, v: u32, pos: int) -> bool {
    ||| live_in(f, b, v) && pos == entry(f, b)
    ||| live_out(f, b, v) && pos == exit(f, b)
    ||| read_at_end(f.blocks@[b].term) == Some(v) && pos == exit(f, b)
    ||| entry(f, b) <= pos < exit(f, b) && mentions(f.blocks@[b].instrs@[pos - entry(f, b)], v)
}

/// Whether `v` is needed at position `pos`: a value that arrives with the
/// call is, at the first position; so is one live at the entry or the exit of
/// a block, there; and so is an operand, where it is read or written.
pub open spec fn touches(f: IrFunction, v: u32, pos: int) -> bool {
    ||| v < f.incoming() && pos == 0
    ||| exists|b: int| 0 <= b < f.blocks@.len() && #[trigger] touches_in(f, b, v, pos)
}

/// Whether `r` spans exactly the positions that touch its virtual register.
/// One that nothing touches has the first position alone.
pub open spec fn is_interval(f: IrFunction, r: Range) -> bool {
    &&& forall|p: int| #[trigger] touches(f, r.vreg, p) ==> r.start <= p <= r.end
    &&& if exists|p: int| #[trigger] touches(f, r.vreg, p) {
        touches(f, r.vreg, r.start as int) && touches(f, r.vreg, r.end as int)
    } else {
        r.start == 0 && r.end == 0
    }
}

/// The interval of `v`.
pub open spec fn interval(f: IrFunction, v: u32) -> Range {
    choose|r: Range| r.vreg == v && is_interval(f, r)
}

/// What the allocator asks of a function: operands and branch targets that
/// exist, room for the incoming values, and positions that fit 32 bits.
pub open spec fn allocatable(f: IrFunction) -> bool {
    &&& blocks_ok(f)
    &&& f.incoming() <= f.vregs
    &&& entry(f, f.blocks@.len() as int) <= u32::MAX
}

proof fn lemma_interval_unique(f: IrFunction, r: Range)
    requires
        is_interval(f, r),
    ensures
        interval(f, r.vreg) == r,
{
    let q = interval(f, r.vreg);
    assert(q.vreg == r.vreg && is_interval(f, q));
    if exists|p: int| #[trigger] touches(f, r.vreg, p) {
        assert(touches(f, r.vreg, q.start as int));
        assert(touches(f, r.vreg, q.end as int));
    }
}

proof fn lemma_entry_grows(f: IrFunction, a: int, b: int)
    requires
        0 <= a <= b,
    ensures
        0 <= entry(f, a) <= entry(f, b),
        a < b ==> exit(f, a) < entry(f, b),
    decreases b,
{
    if b > 0 {
        if a < b {
            lemma_entry_grows(f, a, b - 1);
        } else {
            lemma_entry_grows(f, a - 1, b - 1);
        }
    }
}

/// Every touched position is one of the function's.
proof fn lemma_touches_bounded(f: IrFunction, v: u32, p: int)
    requires
        allocatable(f),
        touches(f, v, p),
    ensures
        0 <= p <= u32::MAX,
{
    if !(v < f.incoming() && p == 0) {
        let b = choose|b: int| 0 <= b < f.blocks@.len() && #[trigger] touches_in(f, b, v, p);
        lemma_entry_grows(f, b, f.blocks@.len() as int);
    }
}

proof fn lemma_first_touch(f: IrFunction, v: u32, p: int) -> (q: int)
    requires
        allocatable(f),
        touches(f, v, p),
    ensures
        touches(f, v, q),
        forall|x: int| #[trigger] touches(f, v, x) ==> q <= x,
    decreases p,
{
    lemma_touches_bounded(f, v, p);
    if exists|x: int| #[trigger] touches(f, v, x) && x < p {
        let x = choose|x: int| #[trigger] touches(f, v, x) && x < p;
        lemma_touches_bounded(f, v, x);
        lemma_first_touch(f, v, x)
    } else {
        p
    }
}

proof fn lemma_last_touch(f: IrFunction, v: u32, p: int) -> (q: int)
    requires
        allocatable(f),
        touches(f, v, p),
    ensures
        touches(f, v, q),
        forall|x: int| #[trigger] touches(f, v, x) ==> x <= q,
    decreases u32::MAX - p,
{
    lemma_touches_bounded(f, v, p);
    if exists|x: int| #[trigger] touches(f, v, x) && x > p {
        let x = choose|x: int| #[trigger] touches(f, v, x) && x > p;
        lemma_touches_bounded(f, v, x);
        lemma_last_touch(f, v, x)
    } else {
        p
    }
}

/// Every virtual register has an interval, which spans the positions that
/// touch it and no wider.
pub proof fn interval_spans_touches(f: IrFunction, v: u32)
    requires
        allocatable(f),
    ensures
        interval(f, v).vreg == v,
        is_interval(f, interval(f, v)),
        interval(f, v).start <= interval(f, v).end,
{
    if exists|p: int| #[trigger] touches(f, v, p) {
        let p = choose|p: int| #[trigger] touches(f, v, p);
        let a = lemma_first_touch(f, v, p);
        let z = lemma_last_touch(f, v, p);
        lemma_touches_bounded(f, v, a);
        lemma_touches_bounded(f, v, z);
        let r = Range { vreg: v, start: a as u32, end: z as u32 };
        assert(is_interval(f, r));
    } else {
        let r = Range { vreg: v, start: 0, end: 0 };
        assert(is_interval(f, r));
    }
}

/// The first and last position noted for each virtual register.
struct Hull {
    start: Vec<u32>,
    end: Vec<u32>,
    seen: Vec<bool>,
    noted: Ghost<Set<(u32, int)>>,
}

impl Hull {
    spec fn wf(self, n: u32) -> bool {
        &&& self.start@.len() == n
        &&& self.end@.len() == n
        &&& self.seen@.len() == n
        &&& forall|v: u32| #[trigger] self.covers(n, v)
    }

    spec fn covers(self, n: u32, v: u32) -> bool {
        let i = v as int;
        &&& forall|p: int| #[trigger]
            self.noted@.contains((v, p)) ==> v < n && self.seen@[i] && self.start@[i] <= p
                <= self.end@[i]
        &&& v < n && self.seen@[i] ==> self.noted@.contains((v, self.start@[i] as int))
            && self.noted@.contains((v, self.end@[i] as int))
        &&& v < n && !self.seen@[i] ==> self.start@[i] == 0 && self.end@[i] == 0
    }

    fn new(n: u32) -> (h: Hull)
        ensures
            h.wf(n),
            h.noted@ == Set::<(u32, int)>::empty(),
    {
        Hull {
            start: vec![0u32; n as usize],
            end: vec![0u32; n as usize],
            seen: vec![false; n as usize],
            noted: Ghost(Set::empty()),
        }
    }

    fn touch(&mut self, n: Ghost<u32>, v: u32, pos: u32)
        requires
            old(self).wf(n@),
            v < n@,
        ensures
            final(self).wf(n@),
            final(self).noted@ == old(self).noted@.insert((v, pos as int)),
    {
        let i: usize = v as usize;
        proof {
            assert(self.covers(n@, v));
        }
        if !self.seen[i] {
            self.seen.set(i, true);
            self.start.set(i, pos);
            self.end.set(i, pos);
        } else {
            if pos < self.start[i] {
                self.start.set(i, pos);
            }
            if pos > self.end[i] {
                self.end.set(i, pos);
            }
        }
        self.noted = Ghost(self.noted@.insert((v, pos as int)));
        proof {
            assert forall|w: u32| #[trigger] self.covers(n@, w) by {
                assert(old(self).covers(n@, w));
            }
        }
    }
}

/// Notes in `h` what is live at the entry and the exit of block `b`.
fn touch_edges(f: &IrFunction, live: &Vec<Vec<bool>>, b: usize, at: u32, h: &mut Hull)
    requires
        allocatable(*f),
        b < f.blocks@.len(),
        is_table(live@, f.blocks@.len() as int, f.vregs as int),
        forall|c: int, v: u32|
            0 <= c < f.blocks@.len() && v < f.vregs ==> #[trigger] live@[c]@[v as int] == live_in(
                *f,
                c,
                v,
            ),
        at == entry(*f, b as int),
        exit(*f, b as int) <= u32::MAX,
        old(h).wf(f.vregs),
    ensures
        final(h).wf(f.vregs),
        forall|v: u32, p: int| #[trigger]
            final(h).noted@.contains((v, p)) <==> old(h).noted@.contains((v, p)) || (v < f.vregs && (
            (live_in(*f, b as int, v) && p == entry(*f, b as int)) || (live_out(*f, b as int, v) && p
                == exit(*f, b as int)) || (read_at_end(f.blocks@[b as int].term) == Some(v) && p == exit(
                *f,
                b as int,
            )))),
{
    let last: u32 = at + f.blocks[b].instrs.len() as u32;
    let ghost noted0 = h.noted@;
    proof {
        assert(block_ok(*f, f.blocks@[b as int]));
    }
    let mut v: u32 = 0;
    while v < f.vregs
        invariant
            v <= f.vregs,
            b < f.blocks@.len(),
            block_ok(*f, f.blocks@[b as int]),
            is_table(live@, f.blocks@.len() as int, f.vregs as int),
            forall|c: int, v: u32|
                0 <= c < f.blocks@.len() && v < f.vregs ==> #[trigger] live@[c]@[v as int]
                    == live_in(*f, c, v),
            at == entry(*f, b as int),
            last == exit(*f, b as int),
            h.wf(f.vregs),
            forall|w: u32, p: int| #[trigger]
                h.noted@.contains((w, p)) <==> noted0.contains((w, p)) || (w < v && ((live_in(
                    *f,
                    b as int,
                    w,
                ) && p == entry(*f, b as int)) || (live_out(*f, b as int, w) && p == exit(
                    *f,
                    b as int,
                )))),
        decreases f.vregs - v,
    {
        let ghost cur = h.noted@;
        if live[b][v as usize] {
            h.touch(Ghost(f.vregs), v, at);
        }
        let mut after: bool = false;
        if let Terminator::Branch { if_true, if_false, .. } = &f.blocks[b].term {
            after = live[*if_true as usize][v as usize] || live[*if_false as usize][v as usize];
            proof {
                assert(succ(*f, b as int, *if_true as int));
                assert(succ(*f, b as int, *if_false as int));
            }
        }
        proof {
            assert(live@[b as int]@[v as int] == live_in(*f, b as int, v));
            assert(after == live_out(*f, b as int, v));
        }
        if after {
            h.touch(Ghost(f.vregs), v, last);
        }
        proof {
            assert forall|w: u32, p: int| #[trigger]
                h.noted@.contains((w, p)) <==> noted0.contains((w, p)) || (w < v + 1 && ((live_in(
                    *f,
                    b as int,
                    w,
                ) && p == entry(*f, b as int)) || (live_out(*f, b as int, w) && p == exit(
                    *f,
                    b as int,
                )))) by {
                assert(cur.contains((w, p)) <==> noted0.contains((w, p)) || (w < v && ((live_in(
                    *f,
                    b as int,
                    w,
                ) && p == entry(*f, b as int)) || (live_out(*f, b as int, w) && p == exit(
                    *f,
                    b as int,
                )))));
            }
        }
        v += 1;
    }
    if let Some(v) = end_operand(&f.blocks[b].term) {
        h.touch(Ghost(f.vregs), v, last);
    }
}

/// Notes in `h` every operand of the instructions of block `b`.
fn touch_operands(f: &IrFunction, b: usize, at: u32, h: &mut Hull)
    requires
        allocatable(*f),
        b < f.blocks@.len(),
        at == entry(*f, b as int),
        exit(*f, b as int) <= u32::MAX,
        old(h).wf(f.vregs),
    ensures
        final(h).wf(f.vregs),
        forall|v: u32, p: int| #[trigger]
            final(h).noted@.contains((v, p)) <==> old(h).noted@.contains((v, p)) || (v < f.vregs
                && entry(*f, b as int) <= p < exit(*f, b as int) && mentions(
                f.blocks@[b as int].instrs@[p - entry(*f, b as int)],
                v,
            )),
{
    let ghost noted0 = h.noted@;
    let ghost instrs = f.blocks@[b as int].instrs@;
    proof {
        assert(block_ok(*f, f.blocks@[b as int]));
    }
    let mut k: usize = 0;
    while k < f.blocks[b].instrs.len()
        invariant
            b < f.blocks@.len(),
            instrs == f.blocks@[b as int].instrs@,
            k <= instrs.len(),
            block_ok(*f, f.blocks@[b as int]),
            at == entry(*f, b as int),
            exit(*f, b as int) <= u32::MAX,
            h.wf(f.vregs),
            forall|v: u32, p: int| #[trigger]
                h.noted@.contains((v, p)) <==> noted0.contains((v, p)) || (v < f.vregs && at <= p
                    < at + k && mentions(instrs[p - at], v)),
        decreases instrs.len() - k,
    {
        let pos: u32 = at + k as u32;
        let ghost cur = h.noted@;
        let (d, u) = uses_and_defs(&f.blocks[b].instrs[k]);
        let mut j: usize = 0;
        while j < u.len()
            invariant
                j <= u.len(),
                h.wf(f.vregs),
                forall|j: int| 0 <= j < u@.len() ==> #[trigger] u@[j] < f.vregs,
                forall|v: u32, p: int| #[trigger]
                    h.noted@.contains((v, p)) <==> cur.contains((v, p)) || (p == pos && u@.take(
                        j as int,
                    ).contains(v)),
            decreases u.len() - j,
        {
            let ghost mid = h.noted@;
            let ghost t0 = u@.take(j as int);
            let ghost t1 = u@.take(j + 1);
            h.touch(Ghost(f.vregs), u[j], pos);
            proof {
                assert(t1 =~= t0.push(u@[j as int]));
                assert forall|v: u32, p: int| #[trigger]
                    h.noted@.contains((v, p)) <==> cur.contains((v, p)) || (p == pos && t1.contains(
                        v,
                    )) by {
                    assert(mid.contains((v, p)) <==> cur.contains((v, p)) || (p == pos
                        && t0.contains(v)));
                    if t0.contains(v) {
                        let i = choose|i: int| 0 <= i < t0.len() && t0[i] == v;
                        assert(t1[i] == v);
                    }
                    assert(t1[j as int] == u@[j as int]);
                    if t1.contains(v) && v != u@[j as int] {
                        let i = choose|i: int| 0 <= i < t1.len() && t1[i] == v;
                        assert(t0[i] == v);
                    }
                }
            }
            j += 1;
        }
        let ghost mid = h.noted@;
        if let Some(v) = d {
            h.touch(Ghost(f.vregs), v, pos);
        }
        proof {
            assert(u@.take(j as int) =~= u@);
            assert forall|v: u32, p: int| #[trigger]
                h.noted@.contains((v, p)) <==> noted0.contains((v, p)) || (v < f.vregs && at <= p
                    < at + k + 1 && mentions(instrs[p - at], v)) by {
                assert(mid.contains((v, p)) <==> cur.contains((v, p)) || (p == pos && u@.contains(
                    v,
                )));
                assert(cur.contains((v, p)) <==> noted0.contains((v, p)) || (v < f.vregs && at <= p
                    < at + k && mentions(instrs[p - at], v)));
                if u@.contains(v) {
                    let i = choose|i: int| 0 <= i < u@.len() && u@[i] == v;
                    assert(uses_of(instrs[k as int])[i] < f.vregs);
                }
            }
        }
        k += 1;
    }
}

/// The interval of every virtual register, by number.
fn intervals(f: &IrFunction) -> (r: Vec<Range>)
    requires
        allocatable(*f),
    ensures
        r@.len() == f.vregs,
        forall|v: u32| v < f.vregs ==> #[trigger] r@[v as int] == interval(*f, v),
{
    let live: Vec<Vec<bool>> = live_sets(f);
    let mut h: Hull = Hull::new(f.vregs);
    let incoming: u32 = match f.receiver {
        ReceiverKind::Static => f.arity as u32,
        ReceiverKind::This => f.arity as u32 + 1,
    };
    let mut v: u32 = 0;
    while v < incoming
        invariant
            v <= incoming <= f.vregs,
            h.wf(f.vregs),
            forall|w: u32, p: int| #[trigger] h.noted@.contains((w, p)) <==> (w < v && p == 0),
        decreases incoming - v,
    {
        let ghost cur = h.noted@;
        h.touch(Ghost(f.vregs), v, 0);
        proof {
            assert forall|w: u32, p: int| #[trigger] h.noted@.contains((w, p)) <==> (w < v + 1 && p
                == 0) by {
                assert(cur.contains((w, p)) <==> (w < v && p == 0));
            }
        }
        v += 1;
    }
    let mut at: u32 = 0;
    let mut b: usize = 0;
    while b < f.blocks.len()
        invariant
            b <= f.blocks@.len(),
            allocatable(*f),
            is_table(live@, f.blocks@.len() as int, f.vregs as int),
            forall|c: int, v: u32|
                0 <= c < f.blocks@.len() && v < f.vregs ==> #[trigger] live@[c]@[v as int]
                    == live_in(*f, c, v),
            at == entry(*f, b as int),
            incoming == f.incoming(),
            h.wf(f.vregs),
            forall|v: u32, p: int| #[trigger]
                h.noted@.contains((v, p)) <==> v < f.vregs && ((v < incoming && p == 0) || exists|
                    c: int,
                |
                    0 <= c < b && #[trigger] touches_in(*f, c, v, p)),
        decreases f.blocks.len() - b,
    {
        proof {
            lemma_entry_grows(*f, b + 1, f.blocks@.len() as int);
        }
        let ghost cur = h.noted@;
        touch_edges(f, &live, b, at, &mut h);
        let ghost mid = h.noted@;
        touch_operands(f, b, at, &mut h);
        proof {
            assert forall|v: u32, p: int| #[trigger]
                h.noted@.contains((v, p)) <==> v < f.vregs && ((v < incoming && p == 0) || exists|
                    c: int,
                |
                    0 <= c < b + 1 && #[trigger] touches_in(*f, c, v, p)) by {
                assert(cur.contains((v, p)) <==> v < f.vregs && ((v < incoming && p == 0) || exists|
                    c: int,
                |
                    0 <= c < b && #[trigger] touches_in(*f, c, v, p)));
                assert(h.noted@.contains((v, p)) <==> cur.contains((v, p)) || (v < f.vregs
                    && touches_in(*f, b as int, v, p))) by {
                    assert(mid.contains((v, p)) || !mid.contains((v, p)));
                }
            }
        }
        at = at + f.blocks[b].instrs.len() as u32 + 1;
        b += 1;
    }
    let mut r: Vec<Range> = Vec::new();
    let mut v: u32 = 0;
    while v < f.vregs
        invariant
            v <= f.vregs,
            incoming == f.incoming(),
            h.wf(f.vregs),
            r@.len() == v,
            forall|v: u32, p: int| #[trigger]
                h.noted@.contains((v, p)) <==> v < f.vregs && ((v < incoming && p == 0) || exists|
                    c: int,
                |
                    0 <= c < f.blocks@.len() && #[trigger] touches_in(*f, c, v, p)),
            forall|w: u32| w < v ==> #[trigger] r@[w as int] == interval(*f, w),
        decreases f.vregs - v,
    {
        let x: Range = Range { vreg: v, start: h.start[v as usize], end: h.end[v as usize] };
        proof {
            assert(h.covers(f.vregs, v));
            assert forall|p: int| #[trigger] touches(*f, v, p) == h.noted@.contains((v, p)) by {}
            assert(h.seen@[v as int] ==> touches(*f, v, x.start as int) && touches(
                *f,
                v,
                x.end as int,
            ));
            assert(is_interval(*f, x));
            lemma_interval_unique(*f, x);
        }
        let ghost r0 = r@;
        r.push(x);
        proof {
            assert forall|w: u32| w < v + 1 implies #[trigger] r@[w as int] == interval(*f, w) by {
                if w < v {
                    assert(r0[w as int] == interval(*f, w));
                }
            }
        }
        v += 1;
    }
    r
}

// ---- the order of the scan

/// Whether the scan takes `a` before `b`: by start, then end, then number.
pub open spec fn precedes(a: Range, b: Range) -> bool {
    a.start < b.start || (a.start == b.start && (a.end < b.end || (a.end == b.end && a.vreg
        < b.vreg)))
}

/// `r` put into `s` behind everything that precedes it.
pub open spec fn insert_range(s: Seq<Range>, r: Range) -> Seq<Range>
    decreases s.len(),
{
    if s.len() == 0 || precedes(s.last(), r) {
        s.push(r)
    } else {
        insert_range(s.drop_last(), r).push(s.last())
    }
}

/// The first `n` intervals of `f` in the order of the scan.
pub open spec fn ordered(f: IrFunction, n: nat) -> Seq<Range>
    decreases n,
{
    if n == 0 {
        Seq::empty()
    } else {
        insert_range(ordered(f, (n - 1) as nat), interval(f, (n - 1) as u32))
    }
}

/// What the scan asks of its input: starts that do not decrease, and no
/// virtual register twice.
pub open spec fn scannable(s: Seq<Range>, vregs: u32) -> bool {
    &&& forall|i: int| 0 <= i < s.len() ==> (#[trigger] s[i]).vreg < vregs
    &&& forall|i: int, j: int|
        0 <= i < j < s.len() ==> (#[trigger] s[i]).start <= (#[trigger] s[j]).start
    &&& forall|i: int, j: int|
        0 <= i < j < s.len() ==> (#[trigger] s[i]).vreg != (#[trigger] s[j]).vreg
}

proof fn lemma_insert_at(s: Seq<Range>, r: Range) -> (i: int)
    ensures
        0 <= i <= s.len(),
        insert_range(s, r) == s.insert(i, r),
        i > 0 ==> precedes(s[i - 1], r),
        i < s.len() ==> !precedes(s[i], r),
    decreases s.len(),
{
    if s.len() == 0 || precedes(s.last(), r) {
        assert(s.push(r) =~= s.insert(s.len() as int, r));
        s.len() as int
    } else {
        let i = lemma_insert_at(s.drop_last(), r);
        assert(insert_range(s, r) =~= s.insert(i, r));
        i
    }
}

/// The order of the scan holds the interval of each virtual register below
/// `n` once, by start.
pub proof fn ordered_is_scannable(f: IrFunction, n: nat)
    requires
        n <= f.vregs,
        allocatable(f),
    ensures
        ordered(f, n).len() == n,
        scannable(ordered(f, n), f.vregs),
        forall|i: int|
            0 <= i < n ==> (#[trigger] ordered(f, n)[i]).vreg < n && ordered(f, n)[i] == interval(
                f,
                ordered(f, n)[i].vreg,
            ),
        forall|v: u32|
            v < n ==> exists|i: int| 0 <= i < n && ordered(f, n)[i] == #[trigger] interval(f, v),
    decreases n,
{
    if n > 0 {
        let m = (n - 1) as nat;
        ordered_is_scannable(f, m);
        let s = ordered(f, m);
        let r = interval(f, m as u32);
        interval_spans_touches(f, m as u32);
        let k = lemma_insert_at(s, r);
        let t = ordered(f, n);
        assert(t == s.insert(k, r));
        assert forall|i: int| 0 <= i < n implies (#[trigger] t[i]).vreg < n && t[i] == interval(
            f,
            t[i].vreg,
        ) by {
            if i < k {
                assert(t[i] == s[i]);
            } else if i > k {
                assert(t[i] == s[i - 1]);
            }
        }
        assert forall|i: int, j: int| 0 <= i < j < n implies (#[trigger] t[i]).start <= (
        #[trigger] t[j]).start && t[i].vreg != t[j].vreg by {
            if i < k {
                assert(t[i] == s[i]);
            } else if i > k {
                assert(t[i] == s[i - 1]);
            }
            if j < k {
                assert(t[j] == s[j]);
            } else if j > k {
                assert(t[j] == s[j - 1]);
            }
        }
        assert forall|v: u32| v < n implies exists|i: int|
            0 <= i < n && t[i] == #[trigger] interval(f, v) by {
            if v < m {
                let i = choose|i: int| 0 <= i < m && s[i] == #[trigger] interval(f, v);
                if i < k {
                    assert(t[i] == s[i]);
                } else {
                    assert(t[i + 1] == s[i]);
                }
            } else {
                assert(t[k] == r);
            }
        }
    }
}

// ---- the scan

/// A virtual register that holds the pool register of index `pool` until
/// position `end`.
#[derive(Debug, Clone, Copy, PartialEq, Eq, Structural)]
pub struct Resident {
    pub end: u32,
    pub pool: usize,
    pub vreg: u32,
}

/// What the scan has decided so far.
#[verifier::ext_equal]
pub struct Scan {
    pub active: Seq<Resident>,
    pub loc: Seq<Loc>,
    pub spills: int,
}

/// The residents that have not ended before `start`.
pub open spec fn expire(a: Seq<Resident>, start: u32) -> Seq<Resident>
    decreases a.len(),
{
    if a.len() == 0 {
        a
    } else {
        let rest = expire(a.drop_last(), start);
        if a.last().end < start {
            rest
        } else {
            rest.push(a.last())
        }
    }
}

/// Whether a resident holds pool register `p`.
pub open spec fn occupied(a: Seq<Resident>, p: int) -> bool {
    exists|i: int| 0 <= i < a.len() && (#[trigger] a[i]).pool == p
}

/// The lowest pool index from `p` on that no resident holds, or the size of
/// the pool.
pub open spec fn lowest_free(a: Seq<Resident>, p: int) -> int
    decreases POOL@.len() - p,
{
    if p >= POOL@.len() || !occupied(a, p) {
        p
    } else {
        lowest_free(a, p + 1)
    }
}

/// Index of the resident that ends last; of several, the last one.
pub open spec fn furthest(a: Seq<Resident>) -> int
    decreases a.len(),
{
    if a.len() <= 1 {
        0
    } else {
        let m = furthest(a.drop_last());
        if a.last().end >= a[m].end {
            a.len() - 1
        } else {
            m
        }
    }
}

/// The scan after it has placed `r`: in the lowest free register; else, in
/// the register of the resident that ends last, if that one ends after `r`,
/// which moves to a slot of its own; else in a slot of its own.
pub open spec fn place(st: Scan, r: Range) -> Scan {
    let a = expire(st.active, r.start);
    let p = lowest_free(a, 0);
    let v = r.vreg as int;
    if p < POOL@.len() {
        Scan {
            active: a.push(Resident { end: r.end, pool: p as usize, vreg: r.vreg }),
            loc: st.loc.update(v, Loc::Reg(POOL@[p])),
            spills: st.spills,
        }
    } else {
        let m = furthest(a);
        if a[m].end > r.end {
            Scan {
                active: a.update(m, Resident { vreg: r.vreg, ..a[m] }),
                loc: st.loc.update(v, Loc::Reg(POOL@[a[m].pool as int])).update(
                    a[m].vreg as int,
                    Loc::Slot(st.spills as u32),
                ),
                spills: st.spills + 1,
            }
        } else {
            Scan {
                active: a,
                loc: st.loc.update(v, Loc::Slot(st.spills as u32)),
                spills: st.spills + 1,
            }
        }
    }
}

/// The scan after it has placed all of `s`.
pub open spec fn scanned(s: Seq<Range>, vregs: u32) -> Scan
    decreases s.len(),
{
    if s.len() == 0 {
        Scan {
            active: Seq::empty(),
            loc: Seq::new(vregs as nat, |i: int| Loc::Slot(u32::MAX)),
            spills: 0,
        }
    } else {
        place(scanned(s.drop_last(), vregs), s.last())
    }
}

/// The homes and the slot count that `allocate` gives to `f`.
pub open spec fn allocation(f: IrFunction) -> Scan {
    scanned(ordered(f, f.vregs as nat), f.vregs)
}

proof fn lemma_expire(a: Seq<Resident>, start: u32)
    requires
        forall|i: int, j: int|
            0 <= i < j < a.len() ==> (#[trigger] a[i]).pool != (#[trigger] a[j]).pool,
    ensures
        expire(a, start).len() <= a.len(),
        forall|i: int|
            0 <= i < expire(a, start).len() ==> a.contains(#[trigger] expire(a, start)[i])
                && expire(a, start)[i].end >= start,
        forall|k: int|
            0 <= k < a.len() && (#[trigger] a[k]).end >= start ==> expire(a, start).contains(a[k]),
        forall|i: int, j: int|
            0 <= i < j < expire(a, start).len() ==> (#[trigger] expire(a, start)[i]).pool != (
            #[trigger] expire(a, start)[j]).pool,
    decreases a.len(),
{
    if a.len() > 0 {
        let b = a.drop_last();
        let x = a.last();
        assert forall|i: int, j: int| 0 <= i < j < b.len() implies (#[trigger] b[i]).pool != (
        #[trigger] b[j]).pool by {
            assert(a[i].pool != a[j].pool);
        }
        lemma_expire(b, start);
        let rest = expire(b, start);
        let e = expire(a, start);
        assert forall|i: int| 0 <= i < e.len() implies a.contains(#[trigger] e[i]) && e[i].end
            >= start by {
            if i < rest.len() {
                assert(b.contains(rest[i]));
                let k = choose|k: int| 0 <= k < b.len() && b[k] == rest[i];
                assert(a[k] == e[i]);
            } else {
                assert(a[a.len() - 1] == e[i]);
            }
        }
        assert forall|k: int| 0 <= k < a.len() && (#[trigger] a[k]).end >= start implies e.contains(
            a[k],
        ) by {
            if k < b.len() {
                assert(b[k] == a[k]);
                assert(rest.contains(b[k]));
                let i = choose|i: int| 0 <= i < rest.len() && rest[i] == b[k];
                assert(e[i] == a[k]);
            } else {
                assert(e[e.len() - 1] == a[k]);
            }
        }
        assert forall|i: int, j: int| 0 <= i < j < e.len() implies (#[trigger] e[i]).pool != (
        #[trigger] e[j]).pool by {
            if j < rest.len() {
                assert(rest[i].pool != rest[j].pool);
            } else {
                assert(b.contains(rest[i]));
                let k = choose|k: int| 0 <= k < b.len() && b[k] == rest[i];
                assert(a[k].pool != a[a.len() - 1].pool);
            }
        }
    }
}

proof fn lemma_lowest_free(a: Seq<Resident>, p: int)
    requires
        0 <= p <= POOL@.len(),
    ensures
        p <= lowest_free(a, p) <= POOL@.len(),
        lowest_free(a, p) < POOL@.len() ==> !occupied(a, lowest_free(a, p)),
        forall|q: int| p <= q < lowest_free(a, p) ==> #[trigger] occupied(a, q),
    decreases POOL@.len() - p,
{
    if p < POOL@.len() && occupied(a, p) {
        lemma_lowest_free(a, p + 1);
    }
}

proof fn lemma_furthest(a: Seq<Resident>)
    requires
        a.len() > 0,
    ensures
        0 <= furthest(a) < a.len(),
        forall|i: int| 0 <= i < a.len() ==> (#[trigger] a[i]).end <= a[furthest(a)].end,
        forall|i: int| furthest(a) < i < a.len() ==> (#[trigger] a[i]).end < a[furthest(a)].end,
    decreases a.len(),
{
    if a.len() > 1 {
        let b = a.drop_last();
        lemma_furthest(b);
        let m = furthest(b);
        assert forall|i: int| 0 <= i < a.len() - 1 implies (#[trigger] a[i]).end <= a[m].end && (i > m
            ==> a[i].end < a[m].end) by {
            assert(b[i] == a[i]);
        }
    }
}

/// Whether resident `x` stands for a range of `s`, ends no sooner, and has
/// the home that `loc` says.
spec fn resident_ok(s: Seq<Range>, loc: Seq<Loc>, x: Resident) -> bool {
    &&& x.pool < POOL@.len()
    &&& x.vreg < loc.len()
    &&& loc[x.vreg as int] == Loc::Reg(POOL@[x.pool as int])
    &&& exists|j: int| 0 <= j < s.len() && (#[trigger] s[j]).vreg == x.vreg && s[j].end <= x.end
}

/// Whether a resident stands for `v`.
spec fn is_active(a: Seq<Resident>, v: u32) -> bool {
    exists|i: int| 0 <= i < a.len() && (#[trigger] a[i]).vreg == v
}

/// What holds of the scan after it has placed `s` and come to position `now`.
spec fn scan_inv(s: Seq<Range>, st: Scan, now: int) -> bool {
    &&& 0 <= st.spills <= s.len()
    &&& forall|i: int|
        0 <= i < st.active.len() ==> resident_ok(s, st.loc, #[trigger] st.active[i])
    &&& forall|i: int, j: int|
        0 <= i < j < st.active.len() ==> (#[trigger] st.active[i]).pool != (
        #[trigger] st.active[j]).pool
    &&& forall|j: int|
        0 <= j < s.len() && st.loc[(#[trigger] s[j]).vreg as int] is Reg ==> is_active(
            st.active,
            s[j].vreg,
        ) || s[j].end < now
    &&& forall|j: int|
        0 <= j < s.len() ==> (st.loc[(#[trigger] s[j]).vreg as int] matches Loc::Slot(k) ==> k
            < st.spills)
    &&& forall|i: int, j: int|
        0 <= i < j < s.len() && st.loc[(#[trigger] s[i]).vreg as int] == st.loc[(
        #[trigger] s[j]).vreg as int] ==> s[i].end < s[j].start && st.loc[s[i].vreg as int] is Reg
}

/// Whether `r` can come next after `s`.
spec fn comes_next(s: Seq<Range>, r: Range, vregs: int) -> bool {
    &&& r.vreg < vregs
    &&& forall|i: int|
        0 <= i < s.len() ==> (#[trigger] s[i]).vreg != r.vreg && s[i].vreg < vregs && s[i].start
            <= r.start
    &&& forall|i: int, j: int|
        0 <= i < j < s.len() ==> (#[trigger] s[i]).vreg != (#[trigger] s[j]).vreg
}

proof fn lemma_pool_distinct(p: int, q: int)
    requires
        0 <= p < POOL@.len(),
        0 <= q < POOL@.len(),
        POOL@[p] == POOL@[q],
    ensures
        p == q,
{
    assert(POOL@.len() == 5);
    assert(POOL@[0] == Phys::Rbx && POOL@[1] == Phys::R12 && POOL@[2] == Phys::R13 && POOL@[3]
        == Phys::R14 && POOL@[4] == Phys::R15);
}

/// Expiry keeps what holds of the scan, and what stays reaches `r`.
proof fn lemma_expired(s: Seq<Range>, st: Scan, now: int, r: Range)
    requires
        scan_inv(s, st, now),
        now <= r.start,
        comes_next(s, r, st.loc.len() as int),
    ensures
        scan_inv(s, (Scan { active: expire(st.active, r.start), ..st }), r.start as int),
{
    let a = expire(st.active, r.start);
    lemma_expire(st.active, r.start);
    assert forall|i: int| 0 <= i < a.len() implies resident_ok(s, st.loc, #[trigger] a[i]) by {
        assert(st.active.contains(a[i]));
        let k = choose|k: int| 0 <= k < st.active.len() && st.active[k] == a[i];
        assert(resident_ok(s, st.loc, st.active[k]));
    }
    assert forall|j: int|
        0 <= j < s.len() && st.loc[(#[trigger] s[j]).vreg as int] is Reg implies is_active(
        a,
        s[j].vreg,
    ) || s[j].end < r.start by {
        if is_active(st.active, s[j].vreg) {
            let i = choose|i: int|
                0 <= i < st.active.len() && (#[trigger] st.active[i]).vreg == s[j].vreg;
            assert(resident_ok(s, st.loc, st.active[i]));
            if st.active[i].end >= r.start {
                assert(a.contains(st.active[i]));
                let k = choose|k: int| 0 <= k < a.len() && a[k] == st.active[i];
                assert(a[k].vreg == s[j].vreg);
            } else {
                let q = choose|q: int|
                    0 <= q < s.len() && (#[trigger] s[q]).vreg == st.active[i].vreg && s[q].end
                        <= st.active[i].end;
                assert(q == j);
            }
        }
    }
}

/// Once the old ranges have expired, a range whose home is register `p` has
/// ended, unless the resident of `p` stands for it.
proof fn lemma_ended(s: Seq<Range>, st: Scan, now: int, p: int, j: int)
    requires
        scan_inv(s, st, now),
        0 <= p < POOL@.len(),
        0 <= j < s.len(),
        st.loc[s[j].vreg as int] == Loc::Reg(POOL@[p]),
        forall|i: int|
            0 <= i < st.active.len() && (#[trigger] st.active[i]).pool == p ==> st.active[i].vreg
                != s[j].vreg,
    ensures
        s[j].end < now,
{
    if is_active(st.active, s[j].vreg) {
        let i = choose|i: int|
            0 <= i < st.active.len() && (#[trigger] st.active[i]).vreg == s[j].vreg;
        assert(resident_ok(s, st.loc, st.active[i]));
        lemma_pool_distinct(p, st.active[i].pool as int);
    }
}

proof fn lemma_resident_is_old(s: Seq<Range>, st: Scan, r: Range, i: int)
    requires
        comes_next(s, r, st.loc.len() as int),
        0 <= i < st.active.len(),
        resident_ok(s, st.loc, st.active[i]),
    ensures
        st.active[i].vreg != r.vreg,
{
    let q = choose|q: int|
        0 <= q < s.len() && (#[trigger] s[q]).vreg == st.active[i].vreg && s[q].end
            <= st.active[i].end;
    assert(s[q].vreg != r.vreg);
}

/// A resident for `s` is one for `s` and `r` too, where its home is the same.
proof fn lemma_resident_stays(s: Seq<Range>, loc: Seq<Loc>, r: Range, loc2: Seq<Loc>, x: Resident)
    requires
        resident_ok(s, loc, x),
        loc2.len() == loc.len(),
        loc2[x.vreg as int] == loc[x.vreg as int],
    ensures
        resident_ok(s.push(r), loc2, x),
{
    let q = choose|q: int|
        0 <= q < s.len() && (#[trigger] s[q]).vreg == x.vreg && s[q].end <= x.end;
    assert(s.push(r)[q] == s[q]);
}

proof fn lemma_place_free(s: Seq<Range>, st: Scan, r: Range, p: int)
    requires
        scan_inv(s, st, r.start as int),
        comes_next(s, r, st.loc.len() as int),
        0 <= p < POOL@.len(),
        !occupied(st.active, p),
    ensures
        scan_inv(
            s.push(r),
            (Scan {
                active: st.active.push(Resident { end: r.end, pool: p as usize, vreg: r.vreg }),
                loc: st.loc.update(r.vreg as int, Loc::Reg(POOL@[p])),
                spills: st.spills,
            }),
            r.start as int,
        ),
{
    let t = s.push(r);
    let n = s.len() as int;
    let x = Resident { end: r.end, pool: p as usize, vreg: r.vreg };
    let b = st.active.push(x);
    let loc = st.loc.update(r.vreg as int, Loc::Reg(POOL@[p]));
    assert(t[n] == r);
    assert forall|j: int| 0 <= j < n implies #[trigger] t[j] == s[j] && loc[s[j].vreg as int]
        == st.loc[s[j].vreg as int] by {}
    assert forall|i: int| 0 <= i < b.len() implies resident_ok(t, loc, #[trigger] b[i]) by {
        if i < st.active.len() {
            assert(resident_ok(s, st.loc, st.active[i]));
            lemma_resident_is_old(s, st, r, i);
            lemma_resident_stays(s, st.loc, r, loc, st.active[i]);
        } else {
            assert(t[n].vreg == x.vreg);
        }
    }
    assert forall|i: int, j: int| 0 <= i < j < b.len() implies (#[trigger] b[i]).pool != (
    #[trigger] b[j]).pool by {
        if j == st.active.len() {
            assert(st.active[i].pool != p);
        }
    }
    assert forall|j: int|
        0 <= j < t.len() && loc[(#[trigger] t[j]).vreg as int] is Reg implies is_active(
        b,
        t[j].vreg,
    ) || t[j].end < r.start by {
        if j < n {
            if is_active(st.active, s[j].vreg) {
                let i = choose|i: int|
                    0 <= i < st.active.len() && (#[trigger] st.active[i]).vreg == s[j].vreg;
                assert(b[i].vreg == t[j].vreg);
            }
        } else {
            assert(b[st.active.len() as int].vreg == r.vreg);
        }
    }
    assert forall|i: int, j: int|
        0 <= i < j < t.len() && loc[(#[trigger] t[i]).vreg as int] == loc[(
        #[trigger] t[j]).vreg as int] implies t[i].end < t[j].start && loc[t[i].vreg as int] is Reg by {
        if j == n {
            lemma_ended(s, st, r.start as int, p, i);
        }
    }
}

proof fn lemma_place_displacing(s: Seq<Range>, st: Scan, r: Range, m: int)
    requires
        scan_inv(s, st, r.start as int),
        comes_next(s, r, st.loc.len() as int),
        s.len() < u32::MAX,
        0 <= m < st.active.len(),
        st.active[m].end > r.end,
    ensures
        scan_inv(
            s.push(r),
            (Scan {
                active: st.active.update(m, Resident { vreg: r.vreg, ..st.active[m] }),
                loc: st.loc.update(
                    r.vreg as int,
                    Loc::Reg(POOL@[st.active[m].pool as int]),
                ).update(st.active[m].vreg as int, Loc::Slot(st.spills as u32)),
                spills: st.spills + 1,
            }),
            r.start as int,
        ),
{
    let t = s.push(r);
    let n = s.len() as int;
    let w = st.active[m].vreg;
    let p = st.active[m].pool as int;
    let x = Resident { vreg: r.vreg, ..st.active[m] };
    let b = st.active.update(m, x);
    let loc = st.loc.update(r.vreg as int, Loc::Reg(POOL@[p])).update(
        w as int,
        Loc::Slot(st.spills as u32),
    );
    assert(resident_ok(s, st.loc, st.active[m]));
    lemma_resident_is_old(s, st, r, m);
    assert(t[n] == r);
    assert forall|j: int| 0 <= j < n implies #[trigger] t[j] == s[j] && (s[j].vreg != w
        ==> loc[s[j].vreg as int] == st.loc[s[j].vreg as int]) by {}
    assert forall|i: int| 0 <= i < b.len() && i != m implies (#[trigger] st.active[i]).vreg != w by {
        assert(resident_ok(s, st.loc, st.active[i]));
        if st.active[i].vreg == w {
            lemma_pool_distinct(p, st.active[i].pool as int);
            if i < m {
                assert(st.active[i].pool != st.active[m].pool);
            } else {
                assert(st.active[m].pool != st.active[i].pool);
            }
        }
    }
    assert forall|i: int| 0 <= i < b.len() implies resident_ok(t, loc, #[trigger] b[i]) by {
        if i != m {
            assert(resident_ok(s, st.loc, st.active[i]));
            assert(st.active[i].vreg != w);
            lemma_resident_is_old(s, st, r, i);
            lemma_resident_stays(s, st.loc, r, loc, st.active[i]);
        } else {
            assert(t[n].vreg == x.vreg);
        }
    }
    assert forall|i: int, j: int| 0 <= i < j < b.len() implies (#[trigger] b[i]).pool != (
    #[trigger] b[j]).pool by {
        assert(st.active[i].pool != st.active[j].pool);
    }
    assert forall|j: int|
        0 <= j < t.len() && loc[(#[trigger] t[j]).vreg as int] is Reg implies is_active(
        b,
        t[j].vreg,
    ) || t[j].end < r.start by {
        if j < n {
            if is_active(st.active, s[j].vreg) {
                let i = choose|i: int|
                    0 <= i < st.active.len() && (#[trigger] st.active[i]).vreg == s[j].vreg;
                assert(b[i].vreg == t[j].vreg);
            }
        } else {
            assert(b[m].vreg == r.vreg);
        }
    }
    assert forall|i: int, j: int|
        0 <= i < j < t.len() && loc[(#[trigger] t[i]).vreg as int] == loc[(
        #[trigger] t[j]).vreg as int] implies t[i].end < t[j].start && loc[t[i].vreg as int] is Reg by {
        if j == n {
            assert(t[i].vreg != w);
            assert forall|q: int|
                0 <= q < st.active.len() && (#[trigger] st.active[q]).pool == p implies st.active[q].vreg
                != s[i].vreg by {
                if q < m {
                    assert(st.active[q].pool != st.active[m].pool);
                } else if q > m {
                    assert(st.active[m].pool != st.active[q].pool);
                }
            }
            lemma_ended(s, st, r.start as int, p, i);
        } else {
            assert(s[i].vreg != s[j].vreg);
        }
    }
}

proof fn lemma_place_spilling(s: Seq<Range>, st: Scan, r: Range)
    requires
        scan_inv(s, st, r.start as int),
        comes_next(s, r, st.loc.len() as int),
        s.len() < u32::MAX,
    ensures
        scan_inv(
            s.push(r),
            (Scan {
                active: st.active,
                loc: st.loc.update(r.vreg as int, Loc::Slot(st.spills as u32)),
                spills: st.spills + 1,
            }),
            r.start as int,
        ),
{
    let t = s.push(r);
    let n = s.len() as int;
    let loc = st.loc.update(r.vreg as int, Loc::Slot(st.spills as u32));
    assert(t[n] == r);
    assert forall|j: int| 0 <= j < n implies #[trigger] t[j] == s[j] && loc[s[j].vreg as int]
        == st.loc[s[j].vreg as int] by {}
    assert forall|i: int| 0 <= i < st.active.len() implies resident_ok(
        t,
        loc,
        #[trigger] st.active[i],
    ) by {
        assert(resident_ok(s, st.loc, st.active[i]));
        lemma_resident_is_old(s, st, r, i);
        lemma_resident_stays(s, st.loc, r, loc, st.active[i]);
    }
}

/// What holds of the scan survives the placing of `r`.
proof fn lemma_place(s: Seq<Range>, st: Scan, now: int, r: Range)
    requires
        scan_inv(s, st, now),
        now <= r.start,
        s.len() < u32::MAX,
        comes_next(s, r, st.loc.len() as int),
    ensures
        scan_inv(s.push(r), place(st, r), r.start as int),
        place(st, r).loc.len() == st.loc.len(),
{
    let a = expire(st.active, r.start);
    let mid = Scan { active: a, ..st };
    lemma_expired(s, st, now, r);
    lemma_lowest_free(a, 0);
    let p = lowest_free(a, 0);
    if p < POOL@.len() {
        lemma_place_free(s, mid, r, p);
    } else {
        assert(occupied(a, 0));
        lemma_furthest(a);
        let m = furthest(a);
        if a[m].end > r.end {
            lemma_place_displacing(s, mid, r, m);
        } else {
            lemma_place_spilling(s, mid, r);
        }
    }
}

proof fn lemma_scanned(s: Seq<Range>, vregs: u32)
    requires
        scannable(s, vregs),
        s.len() <= u32::MAX,
    ensures
        scan_inv(
            s,
            scanned(s, vregs),
            if s.len() == 0 {
                0
            } else {
                s.last().start as int
            },
        ),
        scanned(s, vregs).loc.len() == vregs,
    decreases s.len(),
{
    if s.len() > 0 {
        let t = s.drop_last();
        let r = s.last();
        assert forall|i: int, j: int| 0 <= i < j < t.len() implies (#[trigger] t[i]).start <= (
        #[trigger] t[j]).start && t[i].vreg != t[j].vreg by {
            assert(s[i].start <= s[j].start);
        }
        lemma_scanned(t, vregs);
        assert forall|i: int| 0 <= i < t.len() implies (#[trigger] t[i]).vreg != r.vreg && t[i].vreg
            < vregs && t[i].start <= r.start by {
            assert(s[i].vreg != s[s.len() - 1].vreg);
        }
        let now = if t.len() == 0 {
            0
        } else {
            t.last().start as int
        };
        assert(t.len() > 0 ==> t[t.len() - 1].start <= r.start);
        lemma_place(t, scanned(t, vregs), now, r);
        assert(t.push(r) =~= s);
    }
}

/// The residents of `active` that have not ended before `start`.
fn keep_active(active: &Vec<Resident>, start: u32) -> (r: Vec<Resident>)
    ensures
        r@ == expire(active@, start),
{
    let mut r: Vec<Resident> = Vec::new();
    let mut i: usize = 0;
    while i < active.len()
        invariant
            i <= active.len(),
            r@ == expire(active@.take(i as int), start),
        decreases active.len() - i,
    {
        proof {
            assert(active@.take(i + 1).drop_last() =~= active@.take(i as int));
        }
        if active[i].end >= start {
            r.push(active[i]);
        }
        i += 1;
    }
    proof {
        assert(active@.take(i as int) =~= active@);
    }
    r
}

/// The lowest pool index that no resident holds, or the size of the pool.
fn first_free(active: &Vec<Resident>) -> (p: usize)
    ensures
        p == lowest_free(active@, 0),
        p <= POOL@.len(),
{
    let mut p: usize = 0;
    while p < POOL.len()
        invariant
            p <= POOL@.len(),
            lowest_free(active@, 0) == lowest_free(active@, p as int),
        decreases POOL@.len() - p,
    {
        let mut held: bool = false;
        let mut i: usize = 0;
        while i < active.len() && !held
            invariant
                i <= active.len(),
                held ==> occupied(active@, p as int),
                !held ==> forall|k: int| 0 <= k < i ==> (#[trigger] active@[k]).pool != p,
            decreases active.len() - i + if held {
                0int
            } else {
                1int
            },
        {
            if active[i].pool == p {
                held = true;
            } else {
                i += 1;
            }
        }
        if !held {
            return p;
        }
        p += 1;
    }
    p
}

/// Index of the resident that ends last; of several, the last one.
fn last_to_end(active: &Vec<Resident>) -> (m: usize)
    requires
        active@.len() > 0,
    ensures
        m == furthest(active@),
        m < active@.len(),
{
    let mut m: usize = 0;
    let mut i: usize = 1;
    while i < active.len()
        invariant
            1 <= i <= active.len(),
            m < i,
            m == furthest(active@.take(i as int)),
        decreases active.len() - i,
    {
        proof {
            assert(active@.take(i + 1).drop_last() =~= active@.take(i as int));
        }
        if active[i].end >= active[m].end {
            m = i;
        }
        i += 1;
    }
    proof {
        assert(active@.take(i as int) =~= active@);
    }
    m
}

/// Gives a home to each range of `ranges`, in that order.
pub fn scan(ranges: &Vec<Range>, vregs: u32) -> (a: Allocation)
    requires
        scannable(ranges@, vregs),
        ranges@.len() <= u32::MAX,
    ensures
        a.loc@ == scanned(ranges@, vregs).loc,
        a.spills == scanned(ranges@, vregs).spills,
{
    let mut loc: Vec<Loc> = vec![Loc::Slot(u32::MAX); vregs as usize];
    let mut active: Vec<Resident> = Vec::new();
    let mut spills: u32 = 0;
    let mut k: usize = 0;
    proof {
        assert(ranges@.take(0) =~= Seq::empty());
        assert(loc@ =~= scanned(ranges@.take(0), vregs).loc);
        assert(active@ =~= scanned(ranges@.take(0), vregs).active);
    }
    while k < ranges.len()
        invariant
            k <= ranges.len(),
            scannable(ranges@, vregs),
            ranges@.len() <= u32::MAX,
            loc@ == scanned(ranges@.take(k as int), vregs).loc,
            active@ == scanned(ranges@.take(k as int), vregs).active,
            spills == scanned(ranges@.take(k as int), vregs).spills,
        decreases ranges.len() - k,
    {
        let ghost done = ranges@.take(k as int);
        let ghost st = scanned(done, vregs);
        let iv: Range = ranges[k];
        proof {
            assert(ranges@.take(k + 1).drop_last() =~= done);
            assert(forall|i: int| 0 <= i < k ==> done[i] == ranges@[i]);
            lemma_scanned(done, vregs);
            assert forall|i: int| 0 <= i < done.len() implies (#[trigger] done[i]).vreg != iv.vreg
                && done[i].vreg < vregs && done[i].start <= iv.start by {
                assert(ranges@[i].vreg != ranges@[k as int].vreg);
            }
            let now = if done.len() == 0 {
                0
            } else {
                done.last().start as int
            };
            assert(done.len() > 0 ==> done[done.len() - 1].start <= iv.start);
            lemma_expired(done, st, now, iv);
        }
        active = keep_active(&active, iv.start);
        let ghost mid = Scan { active: active@, ..st };
        let p: usize = first_free(&active);
        if p < POOL.len() {
            loc.set(iv.vreg as usize, Loc::Reg(POOL[p]));
            active.push(Resident { end: iv.end, pool: p, vreg: iv.vreg });
        } else {
            proof {
                lemma_lowest_free(active@, 0);
                assert(occupied(active@, 0));
            }
            let m: usize = last_to_end(&active);
            let x: Resident = active[m];
            proof {
                assert(resident_ok(done, st.loc, mid.active[m as int]));
            }
            if x.end > iv.end {
                loc.set(iv.vreg as usize, Loc::Reg(POOL[x.pool]));
                loc.set(x.vreg as usize, Loc::Slot(spills));
                active.set(m, Resident { end: x.end, pool: x.pool, vreg: iv.vreg });
            } else {
                loc.set(iv.vreg as usize, Loc::Slot(spills));
            }
            spills += 1;
        }
        k += 1;
    }
    proof {
        assert(ranges@.take(k as int) =~= ranges@);
    }
    Allocation { loc, spills }
}

/// `ranges` in the order of the scan, each put in its place in turn.
fn in_scan_order(f: Ghost<IrFunction>, ranges: &Vec<Range>) -> (r: Vec<Range>)
    requires
        ranges@.len() <= u32::MAX,
        forall|v: u32| v < ranges@.len() ==> #[trigger] ranges@[v as int] == interval(f@, v),
    ensures
        r@ == ordered(f@, ranges@.len() as nat),
{
    let mut r: Vec<Range> = Vec::new();
    let mut k: usize = 0;
    while k < ranges.len()
        invariant
            k <= ranges.len(),
            ranges@.len() <= u32::MAX,
            forall|v: u32| v < ranges@.len() ==> #[trigger] ranges@[v as int] == interval(f@, v),
            r@ == ordered(f@, k as nat),
        decreases ranges.len() - k,
    {
        let x: Range = ranges[k];
        let ghost v = k as u32;
        proof {
            assert(ranges@[v as int] == interval(f@, v));
        }
        let mut i: usize = r.len();
        proof {
            assert(r@.take(i as int) =~= r@);
            assert(r@.skip(i as int) =~= Seq::empty());
            assert(insert_range(r@, x) =~= insert_range(r@.take(i as int), x) + r@.skip(i as int));
        }
        while i > 0 && !(r[i - 1].start < x.start || (r[i - 1].start == x.start && (r[i - 1].end
            < x.end || (r[i - 1].end == x.end && r[i - 1].vreg < x.vreg))))
            invariant
                i <= r.len(),
                insert_range(r@, x) == insert_range(r@.take(i as int), x) + r@.skip(i as int),
            decreases i,
        {
            proof {
                let t = r@.take(i as int);
                assert(t.drop_last() =~= r@.take(i - 1));
                assert(r@.skip(i - 1) =~= seq![t.last()] + r@.skip(i as int));
                assert(insert_range(t, x) =~= insert_range(t.drop_last(), x).push(t.last()));
                assert(insert_range(r@, x) =~= insert_range(r@.take(i - 1), x) + r@.skip(i - 1));
            }
            i -= 1;
        }
        proof {
            assert(insert_range(r@, x) =~= r@.insert(i as int, x));
        }
        r.insert(i, x);
        k += 1;
    }
    r
}

/// Gives a home to every virtual register of `f`.
///
/// Values used across a back edge keep theirs for the whole trip around the
/// loop: they are live into its header, so their intervals span it.
pub fn allocate(f: &IrFunction) -> (a: Allocation)
    requires
        allocatable(*f),
    ensures
        a.loc@ == allocation(*f).loc,
        a.spills == allocation(*f).spills,
{
    let ranges: Vec<Range> = intervals(f);
    let order: Vec<Range> = in_scan_order(Ghost(*f), &ranges);
    proof {
        ordered_is_scannable(*f, f.vregs as nat);
    }
    scan(&order, f.vregs)
}

// ---- what the allocation guarantees

/// Every virtual register has a home, and there are no more spill slots than
/// virtual registers.
pub proof fn homes_number(f: IrFunction)
    requires
        allocatable(f),
    ensures
        allocation(f).loc.len() == f.vregs,
        0 <= allocation(f).spills <= f.vregs,
{
    ordered_is_scannable(f, f.vregs as nat);
    lemma_scanned(ordered(f, f.vregs as nat), f.vregs);
}

/// A slot that is a home is one of the frame's.
pub proof fn homes_exist(f: IrFunction, v: u32)
    requires
        allocatable(f),
        v < f.vregs,
    ensures
        allocation(f).loc[v as int] matches Loc::Slot(k) ==> k < allocation(f).spills,
{
    let s = ordered(f, f.vregs as nat);
    ordered_is_scannable(f, f.vregs as nat);
    lemma_scanned(s, f.vregs);
    interval_spans_touches(f, v);
    let i = choose|i: int| 0 <= i < f.vregs && s[i] == #[trigger] interval(f, v);
    assert(s[i].vreg == v);
}

/// Two virtual registers that share a home share a register, and the interval
/// of one ends before that of the other begins.
pub proof fn homes_are_exclusive(f: IrFunction, v: u32, w: u32)
    requires
        allocatable(f),
        v < f.vregs,
        w < f.vregs,
        v != w,
        allocation(f).loc[v as int] == allocation(f).loc[w as int],
    ensures
        allocation(f).loc[v as int] is Reg,
        interval(f, v).end < interval(f, w).start || interval(f, w).end < interval(f, v).start,
{
    let s = ordered(f, f.vregs as nat);
    ordered_is_scannable(f, f.vregs as nat);
    lemma_scanned(s, f.vregs);
    interval_spans_touches(f, v);
    interval_spans_touches(f, w);
    let i = choose|i: int| 0 <= i < f.vregs && s[i] == #[trigger] interval(f, v);
    let j = choose|j: int| 0 <= j < f.vregs && s[j] == #[trigger] interval(f, w);
    assert(s[i].vreg == v && s[j].vreg == w);
    assert(i != j);
    if i < j {
        assert(s[i].end < s[j].start);
    } else {
        assert(s[j].end < s[i].start);
    }
}

/// Of two ranges, one of which starts before the other has ended, the homes
/// differ.
pub proof fn overlapping_ranges_keep_apart(s: Seq<Range>, vregs: u32, i: int, j: int)
    requires
        scannable(s, vregs),
        s.len() <= u32::MAX,
        0 <= i < j < s.len(),
        s[j].start <= s[i].end,
    ensures
        scanned(s, vregs).loc[s[i].vreg as int] != scanned(s, vregs).loc[s[j].vreg as int],
{
    lemma_scanned(s, vregs);
}

/// Whether the ranges of `s` at the indices `js` come before range `i`, and
/// have not ended when it starts.
pub open spec fn going_on(s: Seq<Range>, js: Seq<int>, i: int) -> bool {
    &&& js.no_duplicates()
    &&& forall|x: int|
        0 <= x < js.len() ==> 0 <= #[trigger] js[x] < i && s[js[x]].end >= s[i].start
}

/// Whether resident `x` stands for a range of `s` and ends with it.
spec fn ends_with_range(s: Seq<Range>, x: Resident) -> bool {
    exists|j: int| 0 <= j < s.len() && (#[trigger] s[j]).vreg == x.vreg && s[j].end == x.end
}

proof fn lemma_unspilled(s: Seq<Range>, vregs: u32)
    requires
        scannable(s, vregs),
        scanned(s, vregs).spills == 0,
    ensures
        s.len() > 0 ==> scanned(s.drop_last(), vregs).spills == 0,
        forall|k: int|
            0 <= k < scanned(s, vregs).active.len() ==> ends_with_range(
                s,
                #[trigger] scanned(s, vregs).active[k],
            ),
    decreases s.len(),
{
    if s.len() > 0 {
        let t = s.drop_last();
        let st = scanned(t, vregs);
        let r = s.last();
        lemma_prefix_scannable(s, vregs);
        lemma_spills_grow(t, vregs);
        lemma_unspilled(t, vregs);
        lemma_expire_keeps(st.active, r.start);
        let a = scanned(s, vregs).active;
        assert forall|k: int| 0 <= k < a.len() implies ends_with_range(s, #[trigger] a[k]) by {
            if k == a.len() - 1 {
                assert(s[s.len() - 1].vreg == a[k].vreg);
            } else {
                let x = expire(st.active, r.start)[k];
                assert(st.active.contains(x));
                let q = choose|q: int| 0 <= q < st.active.len() && st.active[q] == x;
                let j = choose|j: int|
                    0 <= j < t.len() && (#[trigger] t[j]).vreg == x.vreg && t[j].end == x.end;
                assert(s[j] == t[j]);
            }
        }
    }
}

proof fn lemma_prefix_scannable(s: Seq<Range>, vregs: u32)
    requires
        scannable(s, vregs),
        s.len() > 0,
    ensures
        scannable(s.drop_last(), vregs),
{
    let t = s.drop_last();
    assert forall|i: int, j: int| 0 <= i < j < t.len() implies (#[trigger] t[i]).start <= (
    #[trigger] t[j]).start && t[i].vreg != t[j].vreg by {
        assert(s[i].start <= s[j].start);
    }
}

proof fn lemma_spills_grow(s: Seq<Range>, vregs: u32)
    ensures
        0 <= scanned(s, vregs).spills,
    decreases s.len(),
{
    if s.len() > 0 {
        lemma_spills_grow(s.drop_last(), vregs);
    }
}

proof fn lemma_expire_keeps(a: Seq<Resident>, start: u32)
    ensures
        forall|i: int|
            0 <= i < expire(a, start).len() ==> a.contains(#[trigger] expire(a, start)[i])
                && expire(a, start)[i].end >= start,
    decreases a.len(),
{
    if a.len() > 0 {
        let b = a.drop_last();
        lemma_expire_keeps(b, start);
        let e = expire(a, start);
        let rest = expire(b, start);
        assert forall|i: int| 0 <= i < e.len() implies a.contains(#[trigger] e[i]) && e[i].end
            >= start by {
            if i < rest.len() {
                let k = choose|k: int| 0 <= k < b.len() && b[k] == rest[i];
                assert(a[k] == e[i]);
            } else {
                assert(a[a.len() - 1] == e[i]);
            }
        }
    }
}

/// A value is spilled only where the registers do not suffice: as many
/// ranges as there are registers are going on when another one starts.
pub proof fn spilling_needs_crowding(s: Seq<Range>, vregs: u32)
    requires
        scannable(s, vregs),
        s.len() <= u32::MAX,
        scanned(s, vregs).spills > 0,
    ensures
        exists|js: Seq<int>, i: int|
            js.len() == POOL@.len() && 0 <= i < s.len() && #[trigger] going_on(s, js, i),
    decreases s.len(),
{
    if s.len() > 0 {
        let t = s.drop_last();
        let r = s.last();
        let n = t.len() as int;
        lemma_prefix_scannable(s, vregs);
        if scanned(t, vregs).spills > 0 {
            spilling_needs_crowding(t, vregs);
            let (js, i) = choose|js: Seq<int>, i: int|
                js.len() == POOL@.len() && 0 <= i < t.len() && #[trigger] going_on(t, js, i);
            assert forall|x: int| 0 <= x < js.len() implies 0 <= #[trigger] js[x] < i
                && s[js[x]].end >= s[i].start by {
                assert(t[js[x]].end >= t[i].start);
            }
            assert(going_on(s, js, i));
        } else {
            lemma_spills_grow(t, vregs);
            lemma_scanned(t, vregs);
            lemma_unspilled(t, vregs);
            let st = scanned(t, vregs);
            let a = expire(st.active, r.start);
            lemma_expire_keeps(st.active, r.start);
            lemma_lowest_free(a, 0);
            let holder = |q: int| choose|k: int| 0 <= k < a.len() && (#[trigger] a[k]).pool == q;
            let range_of = |x: Resident| choose|j: int|
                0 <= j < t.len() && (#[trigger] t[j]).vreg == x.vreg && t[j].end == x.end;
            let js = Seq::new(POOL@.len(), |q: int| range_of(a[holder(q)]));
            assert forall|q: int| 0 <= q < js.len() implies 0 <= #[trigger] js[q] < n && s[js[q]].end
                >= r.start && st.loc[s[js[q]].vreg as int] == Loc::Reg(POOL@[q]) by {
                assert(occupied(a, q));
                let x = a[holder(q)];
                assert(st.active.contains(x));
                let k = choose|k: int| 0 <= k < st.active.len() && st.active[k] == x;
                assert(ends_with_range(t, st.active[k]));
                assert(resident_ok(t, st.loc, st.active[k]));
                assert(t[js[q]] == s[js[q]]);
            }
            assert forall|x: int, y: int| 0 <= x < js.len() && 0 <= y < js.len() && x != y implies js[x]
                != js[y] by {
                if js[x] == js[y] {
                    lemma_pool_distinct(x, y);
                }
            }
            assert(going_on(s, js, n));
        }
    }
}

/// A function of no more virtual registers than there are pool registers
/// needs no slot.
pub proof fn few_values_need_no_slot(f: IrFunction)
    requires
        allocatable(f),
        f.vregs <= POOL@.len(),
    ensures
        allocation(f).spills == 0,
{
    let s = ordered(f, f.vregs as nat);
    ordered_is_scannable(f, f.vregs as nat);
    lemma_spills_grow(s, f.vregs);
    if allocation(f).spills > 0 {
        spilling_needs_crowding(s, f.vregs);
        let (js, i) = choose|js: Seq<int>, i: int|
            js.len() == POOL@.len() && 0 <= i < s.len() && #[trigger] going_on(s, js, i);
        lemma_below(js, i);
    }
}

/// Different indices below `i` are at most `i` in number.
proof fn lemma_below(js: Seq<int>, i: int)
    requires
        js.no_duplicates(),
        0 <= i,
        forall|x: int| 0 <= x < js.len() ==> 0 <= #[trigger] js[x] < i,
    ensures
        js.len() <= i,
{
    js.unique_seq_to_set();
    vstd::set_lib::lemma_int_range(0, i);
    assert(js.to_set().subset_of(vstd::set_lib::set_int_range(0, i)));
    vstd::set_lib::lemma_len_subset(js.to_set(), vstd::set_lib::set_int_range(0, i));
}

proof fn lemma_slots_used(s: Seq<Range>, vregs: u32, k: int)
    requires
        scannable(s, vregs),
        s.len() <= u32::MAX,
        0 <= k < scanned(s, vregs).spills,
    ensures
        exists|j: int|
            0 <= j < s.len() && scanned(s, vregs).loc[(#[trigger] s[j]).vreg as int] == Loc::Slot(
                k as u32,
            ),
    decreases s.len(),
{
    if s.len() > 0 {
        let t = s.drop_last();
        let r = s.last();
        let n = t.len() as int;
        let st = scanned(t, vregs);
        let loc = scanned(s, vregs).loc;
        lemma_prefix_scannable(s, vregs);
        lemma_scanned(t, vregs);
        let a = expire(st.active, r.start);
        lemma_expire_keeps(st.active, r.start);
        lemma_lowest_free(a, 0);
        let full = lowest_free(a, 0) == POOL@.len();
        let m = furthest(a);
        if full {
            assert(occupied(a, 0));
            lemma_furthest(a);
            assert(st.active.contains(a[m]));
            let q = choose|q: int| 0 <= q < st.active.len() && st.active[q] == a[m];
            assert(resident_ok(t, st.loc, st.active[q]));
        }
        assert(s[n] == r);
        if k < st.spills {
            lemma_slots_used(t, vregs, k);
            let j = choose|j: int|
                0 <= j < t.len() && st.loc[(#[trigger] t[j]).vreg as int] == Loc::Slot(k as u32);
            assert(s[j] == t[j]);
            assert(s[j].vreg != s[n].vreg);
            assert(loc[s[j].vreg as int] == Loc::Slot(k as u32));
        } else if a[m].end > r.end {
            let j = choose|j: int|
                0 <= j < t.len() && (#[trigger] t[j]).vreg == a[m].vreg && t[j].end <= a[m].end;
            assert(s[j] == t[j]);
            assert(loc[s[j].vreg as int] == Loc::Slot(k as u32));
        } else {
            assert(loc[s[n].vreg as int] == Loc::Slot(k as u32));
        }
    }
}

/// Every slot that the frame has room for is the home of some value.
pub proof fn slots_are_used(f: IrFunction, k: int)
    requires
        allocatable(f),
        0 <= k < allocation(f).spills,
    ensures
        exists|v: u32|
            v < f.vregs && #[trigger] allocation(f).loc[v as int] == Loc::Slot(k as u32),
{
    let s = ordered(f, f.vregs as nat);
    ordered_is_scannable(f, f.vregs as nat);
    lemma_slots_used(s, f.vregs, k);
    let j = choose|j: int|
        0 <= j < s.len() && allocation(f).loc[(#[trigger] s[j]).vreg as int] == Loc::Slot(k as u32);
    assert(s[j].vreg < f.vregs);
}

/// Two values that come in with a call have different homes.
pub proof fn incoming_values_keep_apart(f: IrFunction, v: u32, w: u32)
    requires
        allocatable(f),
        v < f.incoming(),
        w < f.incoming(),
        v != w,
    ensures
        allocation(f).loc[v as int] != allocation(f).loc[w as int],
{
    assert(touches(f, v, 0) && touches(f, w, 0));
    interval_spans_touches(f, v);
    interval_spans_touches(f, w);
    if allocation(f).loc[v as int] == allocation(f).loc[w as int] {
        homes_are_exclusive(f, v, w);
    }
}

/// Whether one of the instructions of `b` from index `k` up to index `m`
/// writes `v`.
pub open spec fn defined_between(b: Block, k: int, m: int, v: u32) -> bool {
    exists|j: int| k <= j < m && def_of(#[trigger] b.instrs@[j]) == Some(v)
}

/// Whether `v` is live in front of instruction `k` of block `b`, or of the
/// terminator where `k` is the number of instructions: some path from there
/// reads `v` before writing it.
pub open spec fn live_at(f: IrFunction, b: int, k: int, v: u32) -> bool {
    let block = f.blocks@[b];
    let n = block.instrs@.len() as int;
    ||| exists|j: int|
        k <= j < n && uses_of(#[trigger] block.instrs@[j]).contains(v) && !defined_between(
            block,
            k,
            j,
            v,
        )
    ||| !defined_between(block, k, n, v) && (read_at_end(block.term) == Some(v) || live_out(f, b, v))
}

/// The interval of a virtual register spans every point at which it is live.
pub proof fn interval_spans_liveness(f: IrFunction, b: int, k: int, v: u32)
    requires
        allocatable(f),
        0 <= b < f.blocks@.len(),
        0 <= k <= f.blocks@[b].instrs@.len(),
        v < f.vregs,
        live_at(f, b, k, v),
    ensures
        interval(f, v).start <= entry(f, b) + k <= interval(f, v).end,
{
    let block = f.blocks@[b];
    let n = block.instrs@.len() as int;
    interval_spans_touches(f, v);
    // Somewhere from here on, `v` is touched.
    if !defined_between(block, k, n, v) && (read_at_end(block.term) == Some(v) || live_out(f, b, v)) {
        assert(touches_in(f, b, v, exit(f, b)));
        assert(touches(f, v, exit(f, b)));
    } else {
        let j = choose|j: int|
            k <= j < n && uses_of(#[trigger] block.instrs@[j]).contains(v) && !defined_between(
                block,
                k,
                j,
                v,
            );
        assert(mentions(block.instrs@[j], v));
        assert(touches_in(f, b, v, entry(f, b) + j));
        assert(touches(f, v, entry(f, b) + j));
    }
    // Somewhere up to here, `v` is touched: where the block writes it, or at
    // its entry, where it is live.
    if defined_between(block, 0, k, v) {
        let i = choose|i: int| 0 <= i < k && def_of(#[trigger] block.instrs@[i]) == Some(v);
        assert(mentions(block.instrs@[i], v));
        assert(touches_in(f, b, v, entry(f, b) + i));
        assert(touches(f, v, entry(f, b) + i));
    } else {
        lemma_live_at_entry(f, b, k, v);
        assert(touches_in(f, b, v, entry(f, b)));
        assert(touches(f, v, entry(f, b)));
    }
}

/// What is live inside a block that has not written it is live at its entry.
proof fn lemma_live_at_entry(f: IrFunction, b: int, k: int, v: u32)
    requires
        0 <= b < f.blocks@.len(),
        0 <= k <= f.blocks@[b].instrs@.len(),
        live_at(f, b, k, v),
        !defined_between(f.blocks@[b], 0, k, v),
    ensures
        live_in(f, b, v),
{
    let block = f.blocks@[b];
    let n = block.instrs@.len() as int;
    if !defined_between(block, k, n, v) && (read_at_end(block.term) == Some(v) || live_out(f, b, v)) {
        assert(!kills(block, v)) by {
            if kills(block, v) {
                let i = choose|i: int| 0 <= i < n && def_of(#[trigger] block.instrs@[i]) == Some(v);
                if i < k {
                    assert(defined_between(block, 0, k, v));
                } else {
                    assert(defined_between(block, k, n, v));
                }
            }
        }
        if read_at_end(block.term) == Some(v) {
            assert(live_within(f, 0, b, v));
        } else {
            let s = choose|s: int| #[trigger] succ(f, b, s) && live_in(f, s, v);
            let m = choose|m: nat| live_within(f, m, s, v);
            assert(live_within(f, m + 1, b, v));
        }
    } else {
        let j = choose|j: int|
            k <= j < n && uses_of(#[trigger] block.instrs@[j]).contains(v) && !defined_between(
                block,
                k,
                j,
                v,
            );
        assert(!defined_before(block, j, v)) by {
            if defined_before(block, j, v) {
                let i = choose|i: int| 0 <= i < j && def_of(#[trigger] block.instrs@[i]) == Some(v);
                if i < k {
                    assert(defined_between(block, 0, k, v));
                } else {
                    assert(defined_between(block, k, j, v));
                }
            }
        }
        assert(read_before(block, n, v));
        assert(live_within(f, 0, b, v));
    }
}

/// Two virtual registers that are live at one point have different homes.
pub proof fn live_values_keep_apart(f: IrFunction, b: int, k: int, v: u32, w: u32)
    requires
        allocatable(f),
        0 <= b < f.blocks@.len(),
        0 <= k <= f.blocks@[b].instrs@.len(),
        v < f.vregs,
        w < f.vregs,
        v != w,
        live_at(f, b, k, v),
        live_at(f, b, k, w),
    ensures
        allocation(f).loc[v as int] != allocation(f).loc[w as int],
{
    interval_spans_liveness(f, b, k, v);
    interval_spans_liveness(f, b, k, w);
    if allocation(f).loc[v as int] == allocation(f).loc[w as int] {
        homes_are_exclusive(f, v, w);
    }
}

/// What an instruction writes has a home of its own among the values that
/// live on behind it.
pub proof fn written_value_keeps_apart(f: IrFunction, b: int, k: int, v: u32, w: u32)
    requires
        allocatable(f),
        0 <= b < f.blocks@.len(),
        0 <= k < f.blocks@[b].instrs@.len(),
        def_of(f.blocks@[b].instrs@[k]) == Some(v),
        w < f.vregs,
        v != w,
        live_at(f, b, k + 1, w),
    ensures
        allocation(f).loc[v as int] != allocation(f).loc[w as int],
{
    let block = f.blocks@[b];
    assert(block_ok(f, block));
    interval_spans_touches(f, v);
    assert(mentions(block.instrs@[k], v));
    assert(touches_in(f, b, v, entry(f, b) + k));
    assert(touches(f, v, entry(f, b) + k));
    let n = block.instrs@.len() as int;
    // `w` is live in front of the instruction as well, which does not write it.
    assert(live_at(f, b, k, w)) by {
        if !defined_between(block, k + 1, n, w) && (read_at_end(block.term) == Some(w) || live_out(
            f,
            b,
            w,
        )) {
            assert(!defined_between(block, k, n, w)) by {
                if defined_between(block, k, n, w) {
                    let i = choose|i: int|
                        k <= i < n && def_of(#[trigger] block.instrs@[i]) == Some(w);
                    assert(i != k);
                    assert(defined_between(block, k + 1, n, w));
                }
            }
        } else {
            let j = choose|j: int|
                k + 1 <= j < n && uses_of(#[trigger] block.instrs@[j]).contains(w)
                    && !defined_between(block, k + 1, j, w);
            assert(!defined_between(block, k, j, w)) by {
                if defined_between(block, k, j, w) {
                    let i = choose|i: int|
                        k <= i < j && def_of(#[trigger] block.instrs@[i]) == Some(w);
                    assert(i != k);
                    assert(defined_between(block, k + 1, j, w));
                }
            }
            assert(k <= j);
        }
    }
    interval_spans_liveness(f, b, k, w);
    if allocation(f).loc[v as int] == allocation(f).loc[w as int] {
        homes_are_exclusive(f, v, w);
    }
}

} // verus!
