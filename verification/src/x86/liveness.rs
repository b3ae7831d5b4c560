//! Which virtual registers an instruction reads and writes, and where in its
//! function a virtual register is live.
use crate::ir::{Block, Instr, IrFunction, Terminator, VReg};
use vstd::prelude::*;

verus! {

/// The virtual register that `i` writes.
pub open spec fn def_of(i: Instr) -> Option<u32> {
    match i {
        Instr::Const { dst, .. } => Some(dst.0),
        Instr::FConst { dst, .. } => Some(dst.0),
        Instr::Mov { dst, .. } => Some(dst.0),
        Instr::Bin { dst, .. } => Some(dst.0),
        Instr::Cmp { dst, .. } => Some(dst.0),
        Instr::Neg { dst, .. } => Some(dst.0),
        Instr::FBin { dst, .. } => Some(dst.0),
        Instr::FCmp { dst, .. } => Some(dst.0),
        Instr::FNeg { dst, .. } => Some(dst.0),
        Instr::CallFn { dst, .. } => Some(dst.0),
        Instr::CallStatic { dst, .. } => Some(dst.0),
        Instr::CallVirt { dst, .. } => Some(dst.0),
        Instr::CallImport { dst, .. } => Some(dst.0),
        Instr::CallByName { dst, .. } => Some(dst.0),
        Instr::LoadImport { dst, .. } => Some(dst.0),
        Instr::Alloc { dst, .. } => Some(dst.0),
        Instr::AllocDyn { dst, .. } => Some(dst.0),
        Instr::StackAlloc { dst, .. } => Some(dst.0),
        Instr::VTableAddr { dst, .. } => Some(dst.0),
        Instr::LoadStaticAddr { dst, .. } => Some(dst.0),
        Instr::LoadStrAddr { dst, .. } => Some(dst.0),
        Instr::LoadField { dst, .. } => Some(dst.0),
        Instr::LoadByte { dst, .. } => Some(dst.0),
        Instr::BuildArgv { dst } => Some(dst.0),
        Instr::ScanInt { dst } => Some(dst.0),
        Instr::MemCmp { dst, .. } => Some(dst.0),
        Instr::HandlerEnter { dst } => Some(dst.0),
        Instr::LoadExc { dst } => Some(dst.0),
        Instr::TaskAlloc { dst, .. } => Some(dst.0),
        Instr::CoroutineResume { dst, .. } => Some(dst.0),
        Instr::Raw(_) => None,
        Instr::StoreField { .. } => None,
        Instr::WriteStr { .. } => None,
        Instr::EWriteStr { .. } => None,
        Instr::WriteString { .. } => None,
        Instr::WriteInt { .. } => None,
        Instr::EWriteInt { .. } => None,
        Instr::MemCpy { .. } => None,
        Instr::Retain { .. } => None,
        Instr::Release { .. } => None,
        Instr::Drop { .. } => None,
        Instr::Exit => None,
        Instr::HandlerPop => None,
        Instr::ClearInflight => None,
        Instr::Suspend { .. } => None,
    }
}

/// The numbers of the virtual registers in `args`.
pub open spec fn reg_numbers(args: Seq<VReg>) -> Seq<u32> {
    Seq::new(args.len(), |k: int| args[k].0)
}

/// The virtual registers that `i` reads, operand by operand. A call counts
/// its destination too.
pub open spec fn operands_of(i: Instr) -> Seq<u32> {
    match i {
        Instr::Mov { a, .. } => seq![a.0],
        Instr::Bin { a, b, .. } => seq![a.0, b.0],
        Instr::Cmp { a, b, .. } => seq![a.0, b.0],
        Instr::Neg { a, .. } => seq![a.0],
        Instr::FBin { a, b, .. } => seq![a.0, b.0],
        Instr::FCmp { a, b, .. } => seq![a.0, b.0],
        Instr::FNeg { a, .. } => seq![a.0],
        Instr::CallFn { dst, args, .. } => reg_numbers(args@).push(dst.0),
        Instr::CallStatic { dst, args, .. } => reg_numbers(args@).push(dst.0),
        Instr::CallImport { dst, args, .. } => reg_numbers(args@).push(dst.0),
        Instr::CallVirt { dst, recv, args, .. } => reg_numbers(args@).push(recv.0).push(dst.0),
        Instr::CallByName { dst, recv, args, .. } => reg_numbers(args@).push(recv.0).push(dst.0),
        Instr::AllocDyn { bytes, .. } => seq![bytes.0],
        Instr::LoadField { base, .. } => seq![base.0],
        Instr::LoadByte { base, .. } => seq![base.0],
        Instr::StoreField { base, src, .. } => seq![base.0, src.0],
        Instr::WriteString { src } => seq![src.0],
        Instr::WriteInt { src } => seq![src.0],
        Instr::EWriteInt { src } => seq![src.0],
        Instr::MemCpy { dst, src, len } => seq![dst.0, src.0, len.0],
        Instr::MemCmp { a, b, len, .. } => seq![a.0, b.0, len.0],
        Instr::Retain { src } => seq![src.0],
        Instr::Release { src, .. } => seq![src.0],
        Instr::Drop { src } => seq![src.0],
        Instr::Suspend { state } => seq![state.0],
        Instr::CoroutineResume { task, .. } => seq![task.0],
        Instr::Const { .. } => seq![],
        Instr::FConst { .. } => seq![],
        Instr::Raw(_) => seq![],
        Instr::Alloc { .. } => seq![],
        Instr::StackAlloc { .. } => seq![],
        Instr::VTableAddr { .. } => seq![],
        Instr::LoadStaticAddr { .. } => seq![],
        Instr::LoadStrAddr { .. } => seq![],
        Instr::LoadImport { .. } => seq![],
        Instr::BuildArgv { .. } => seq![],
        Instr::WriteStr { .. } => seq![],
        Instr::EWriteStr { .. } => seq![],
        Instr::ScanInt { .. } => seq![],
        Instr::Exit => seq![],
        Instr::HandlerEnter { .. } => seq![],
        Instr::HandlerPop => seq![],
        Instr::LoadExc { .. } => seq![],
        Instr::ClearInflight => seq![],
        Instr::TaskAlloc { .. } => seq![],
    }
}

/// `s`, which ascends, with `v` in its place; `s` itself where `v` is in it.
pub open spec fn insert_number(s: Seq<u32>, v: u32) -> Seq<u32>
    decreases s.len(),
{
    if s.len() == 0 || s.last() < v {
        s.push(v)
    } else if s.last() == v {
        s
    } else {
        insert_number(s.drop_last(), v).push(s.last())
    }
}

/// The numbers in `s`, each once, in ascending order.
pub open spec fn ascending(s: Seq<u32>) -> Seq<u32>
    decreases s.len(),
{
    if s.len() == 0 {
        s
    } else {
        insert_number(ascending(s.drop_last()), s.last())
    }
}

/// Whether every number in `s` is below the next.
pub open spec fn increasing(s: Seq<u32>) -> bool {
    forall|i: int, j: int| 0 <= i < j < s.len() ==> #[trigger] s[i] < #[trigger] s[j]
}

/// The virtual registers that `i` reads, each once, in ascending order.
pub open spec fn uses_of(i: Instr) -> Seq<u32> {
    ascending(operands_of(i))
}

proof fn lemma_insert_number(s: Seq<u32>, v: u32)
    requires
        increasing(s),
    ensures
        increasing(insert_number(s, v)),
        forall|w: u32| #[trigger] insert_number(s, v).contains(w) <==> s.contains(w) || w == v,
    decreases s.len(),
{
    let t = insert_number(s, v);
    if s.len() == 0 || s.last() < v {
        assert forall|w: u32| #[trigger] t.contains(w) <==> s.contains(w) || w == v by {
            if s.contains(w) {
                let i = choose|i: int| 0 <= i < s.len() && s[i] == w;
                assert(t[i] == w);
            }
            assert(t[s.len() as int] == v);
        }
    } else if s.last() == v {
        assert(s[s.len() - 1] == v);
    } else {
        let b = s.drop_last();
        let u = insert_number(b, v);
        lemma_insert_number(b, v);
        assert forall|w: u32| #[trigger] t.contains(w) <==> s.contains(w) || w == v by {
            assert(u.contains(w) <==> b.contains(w) || w == v);
            if u.contains(w) {
                let i = choose|i: int| 0 <= i < u.len() && u[i] == w;
                assert(t[i] == w);
            }
            if b.contains(w) {
                let i = choose|i: int| 0 <= i < b.len() && b[i] == w;
                assert(s[i] == w);
            }
            if s.contains(w) {
                let i = choose|i: int| 0 <= i < s.len() && s[i] == w;
                if i < b.len() {
                    assert(b[i] == w);
                }
            }
            if t.contains(w) {
                let i = choose|i: int| 0 <= i < t.len() && t[i] == w;
                if i < u.len() {
                    assert(u[i] == w);
                }
            }
            assert(t[u.len() as int] == s.last());
            assert(s[s.len() - 1] == s.last());
        }
        assert forall|i: int, j: int| 0 <= i < j < t.len() implies #[trigger] t[i]
            < #[trigger] t[j] by {
            assert(u[i] == t[i]);
            if j < u.len() {
                assert(u[j] == t[j]);
            } else {
                assert(u.contains(u[i]));
                if b.contains(u[i]) {
                    let k = choose|k: int| 0 <= k < b.len() && b[k] == u[i];
                    assert(s[k] < s[s.len() - 1]);
                }
            }
        }
    }
}

/// `ascending` ascends, and has the same numbers in it.
pub proof fn lemma_ascending(s: Seq<u32>)
    ensures
        increasing(ascending(s)),
        forall|w: u32| #[trigger] ascending(s).contains(w) <==> s.contains(w),
    decreases s.len(),
{
    if s.len() > 0 {
        let b = s.drop_last();
        lemma_ascending(b);
        lemma_insert_number(ascending(b), s.last());
        assert forall|w: u32| #[trigger] ascending(s).contains(w) <==> s.contains(w) by {
            assert(ascending(b).contains(w) <==> b.contains(w));
            if b.contains(w) {
                let i = choose|i: int| 0 <= i < b.len() && b[i] == w;
                assert(s[i] == w);
            }
            if s.contains(w) {
                let i = choose|i: int| 0 <= i < s.len() && s[i] == w;
                if i < b.len() {
                    assert(b[i] == w);
                }
            }
            assert(s[s.len() - 1] == s.last());
        }
    }
}

/// Puts `v` in its place in `s`.
fn insert(s: &mut Vec<u32>, v: u32)
    requires
        increasing(old(s)@),
    ensures
        final(s)@ == insert_number(old(s)@, v),
{
    let ghost whole = insert_number(s@, v);
    let mut k: usize = s.len();
    proof {
        assert(s@.take(k as int) =~= s@);
        assert(whole =~= insert_number(s@.take(k as int), v) + s@.skip(k as int));
    }
    while k > 0 && s[k - 1] > v
        invariant
            k <= s@.len(),
            s@ == old(s)@,
            whole == insert_number(s@.take(k as int), v) + s@.skip(k as int),
        decreases k,
    {
        proof {
            let t = s@.take(k as int);
            assert(t.drop_last() =~= s@.take(k - 1));
            assert(insert_number(t, v) + s@.skip(k as int) =~= insert_number(t.drop_last(), v)
                + s@.skip(k - 1));
        }
        k -= 1;
    }
    if k > 0 && s[k - 1] == v {
        proof {
            assert(s@.take(k as int) + s@.skip(k as int) =~= s@);
        }
        return;
    }
    proof {
        assert(s@.take(k as int).push(v) + s@.skip(k as int) =~= s@.insert(k as int, v));
    }
    s.insert(k, v);
}

/// The numbers in `u`, each once, in ascending order.
fn sorted_unique(u: &Vec<u32>) -> (r: Vec<u32>)
    ensures
        r@ == ascending(u@),
{
    let mut r: Vec<u32> = Vec::new();
    let mut k: usize = 0;
    while k < u.len()
        invariant
            k <= u@.len(),
            r@ == ascending(u@.take(k as int)),
        decreases u.len() - k,
    {
        proof {
            lemma_ascending(u@.take(k as int));
            assert(u@.take(k + 1).drop_last() =~= u@.take(k as int));
        }
        insert(&mut r, u[k]);
        k += 1;
    }
    proof {
        assert(u@.take(k as int) =~= u@);
    }
    r
}

fn numbers(args: &Vec<VReg>) -> (r: Vec<u32>)
    ensures
        r@ == reg_numbers(args@),
{
    let mut r: Vec<u32> = Vec::new();
    let mut k: usize = 0;
    while k < args.len()
        invariant
            k <= args.len(),
            r@ == reg_numbers(args@.take(k as int)),
        decreases args.len() - k,
    {
        r.push(args[k].0);
        proof {
            assert(r@ =~= reg_numbers(args@.take(k + 1)));
        }
        k += 1;
    }
    proof {
        assert(args@.take(k as int) =~= args@);
    }
    r
}

/// The virtual register that `instr` writes, and those that it reads, each
/// once and in ascending order.
pub fn uses_and_defs(instr: &Instr) -> (r: (Option<u32>, Vec<u32>))
    ensures
        r.0 == def_of(*instr),
        r.1@ == uses_of(*instr),
        increasing(r.1@),
        forall|v: u32| #[trigger] r.1@.contains(v) <==> operands_of(*instr).contains(v),
{
    let (d, u) = operands(instr);
    proof {
        lemma_ascending(u@);
    }
    (d, sorted_unique(&u))
}

fn operands(instr: &Instr) -> (r: (Option<u32>, Vec<u32>))
    ensures
        r.0 == def_of(*instr),
        r.1@ == operands_of(*instr),
{
    match instr {
        Instr::Const { dst, .. } => (Some(dst.0), vec![]),
        Instr::FConst { dst, .. } => (Some(dst.0), vec![]),
        Instr::Mov { dst, a } => (Some(dst.0), vec![a.0]),
        Instr::Raw(_) => (None, vec![]),
        Instr::Bin { dst, a, b, .. } => (Some(dst.0), vec![a.0, b.0]),
        Instr::Cmp { dst, a, b, .. } => (Some(dst.0), vec![a.0, b.0]),
        Instr::Neg { dst, a } => (Some(dst.0), vec![a.0]),
        Instr::FBin { dst, a, b, .. } => (Some(dst.0), vec![a.0, b.0]),
        Instr::FCmp { dst, a, b, .. } => (Some(dst.0), vec![a.0, b.0]),
        Instr::FNeg { dst, a } => (Some(dst.0), vec![a.0]),
        Instr::CallFn { dst, args, .. } => {
            let mut u: Vec<u32> = numbers(args);
            u.push(dst.0);
            (Some(dst.0), u)
        },
        Instr::CallStatic { dst, args, .. } => {
            let mut u: Vec<u32> = numbers(args);
            u.push(dst.0);
            (Some(dst.0), u)
        },
        Instr::CallImport { dst, args, .. } => {
            let mut u: Vec<u32> = numbers(args);
            u.push(dst.0);
            (Some(dst.0), u)
        },
        // The receiver is an operand like any other: without it the home of
        // the receiver could go to another value in the middle of the call.
        Instr::CallVirt { dst, recv, args, .. } => {
            let mut u: Vec<u32> = numbers(args);
            u.push(recv.0);
            u.push(dst.0);
            (Some(dst.0), u)
        },
        Instr::CallByName { dst, recv, args, .. } => {
            let mut u: Vec<u32> = numbers(args);
            u.push(recv.0);
            u.push(dst.0);
            (Some(dst.0), u)
        },
        Instr::LoadImport { dst, .. } => (Some(dst.0), vec![]),
        Instr::Alloc { dst, .. } => (Some(dst.0), vec![]),
        Instr::AllocDyn { dst, bytes } => (Some(dst.0), vec![bytes.0]),
        Instr::StackAlloc { dst, .. } => (Some(dst.0), vec![]),
        Instr::VTableAddr { dst, .. } => (Some(dst.0), vec![]),
        Instr::LoadStaticAddr { dst, .. } => (Some(dst.0), vec![]),
        Instr::LoadStrAddr { dst, .. } => (Some(dst.0), vec![]),
        Instr::LoadField { dst, base, .. } => (Some(dst.0), vec![base.0]),
        Instr::LoadByte { dst, base, .. } => (Some(dst.0), vec![base.0]),
        Instr::StoreField { base, src, .. } => (None, vec![base.0, src.0]),
        Instr::BuildArgv { dst } => (Some(dst.0), vec![]),
        Instr::WriteStr { .. } => (None, vec![]),
        Instr::EWriteStr { .. } => (None, vec![]),
        Instr::WriteString { src } => (None, vec![src.0]),
        Instr::WriteInt { src } => (None, vec![src.0]),
        Instr::EWriteInt { src } => (None, vec![src.0]),
        Instr::ScanInt { dst } => (Some(dst.0), vec![]),
        Instr::MemCpy { dst, src, len } => (None, vec![dst.0, src.0, len.0]),
        Instr::MemCmp { dst, a, b, len } => (Some(dst.0), vec![a.0, b.0, len.0]),
        Instr::Retain { src } => (None, vec![src.0]),
        Instr::Release { src, .. } => (None, vec![src.0]),
        Instr::Drop { src } => (None, vec![src.0]),
        Instr::Exit => (None, vec![]),
        Instr::HandlerEnter { dst } => (Some(dst.0), vec![]),
        Instr::HandlerPop => (None, vec![]),
        Instr::LoadExc { dst } => (Some(dst.0), vec![]),
        Instr::ClearInflight => (None, vec![]),
        Instr::TaskAlloc { dst, .. } => (Some(dst.0), vec![]),
        Instr::Suspend { state } => (None, vec![state.0]),
        Instr::CoroutineResume { task, dst } => (Some(dst.0), vec![task.0]),
    }
}

/// The virtual register that `t` reads: what is returned, the status of an
/// exit, the condition of a branch, or what is thrown.
pub open spec fn read_at_end(t: Terminator) -> Option<u32> {
    match t {
        Terminator::Ret(Some(v)) => Some(v.0),
        Terminator::ExitWith(v) => Some(v.0),
        Terminator::Branch { cond: Some(c), .. } => Some(c.0),
        Terminator::Unwind { src } => Some(src.0),
        _ => None,
    }
}

/// The virtual register that `t` reads.
pub fn end_operand(t: &Terminator) -> (r: Option<u32>)
    ensures
        r == read_at_end(*t),
{
    match t {
        Terminator::Ret(Some(v)) => Some(v.0),
        Terminator::ExitWith(v) => Some(v.0),
        Terminator::Branch { cond: Some(c), .. } => Some(c.0),
        Terminator::Unwind { src } => Some(src.0),
        _ => None,
    }
}

/// Whether control can pass from the end of block `b` to block `s`.
pub open spec fn succ(f: IrFunction, b: int, s: int) -> bool {
    match f.blocks@[b].term {
        Terminator::Branch { if_true, if_false, .. } => s == if_true || s == if_false,
        _ => false,
    }
}

/// Whether one of the first `k` instructions of `b` writes `v`.
pub open spec fn defined_before(b: Block, k: int, v: u32) -> bool {
    exists|j: int| 0 <= j < k && def_of(#[trigger] b.instrs@[j]) == Some(v)
}

/// Whether `b` writes `v`.
pub open spec fn kills(b: Block, v: u32) -> bool {
    defined_before(b, b.instrs@.len() as int, v)
}

/// Whether one of the first `k` instructions of `b` reads the value that `v`
/// had at the entry of `b`.
pub open spec fn read_before(b: Block, k: int, v: u32) -> bool {
    exists|j: int|
        0 <= j < k && uses_of(#[trigger] b.instrs@[j]).contains(v) && !defined_before(b, j, v)
}

/// Whether `b` reads the value that `v` had at its entry.
pub open spec fn exposed(b: Block, v: u32) -> bool {
    read_before(b, b.instrs@.len() as int, v) || (read_at_end(b.term) == Some(v) && !kills(b, v))
}

/// Whether the value that `v` has at the entry of block `b` is read after at
/// most `n` steps from block to block, none of which overwrites it.
pub open spec fn live_within(f: IrFunction, n: nat, b: int, v: u32) -> bool
    decreases n,
{
    exposed(f.blocks@[b], v) || (n > 0 && !kills(f.blocks@[b], v) && exists|s: int| #[trigger]
        succ(f, b, s) && live_within(f, (n - 1) as nat, s, v))
}

/// Whether `v` is live at the entry of block `b`: some path from there reads
/// `v` before writing it.
pub open spec fn live_in(f: IrFunction, b: int, v: u32) -> bool {
    exists|n: nat| live_within(f, n, b, v)
}

/// Whether `v` is live at the end of block `b`.
pub open spec fn live_out(f: IrFunction, b: int, v: u32) -> bool {
    exists|s: int| #[trigger] succ(f, b, s) && live_in(f, s, v)
}

/// Whether every virtual register that `b` names for the allocator exists,
/// and every block that it branches to.
pub open spec fn block_ok(f: IrFunction, b: Block) -> bool {
    &&& forall|k: int|
        0 <= k < b.instrs@.len() ==> (def_of(#[trigger] b.instrs@[k]) matches Some(d) ==> d
            < f.vregs)
    &&& forall|k: int, j: int|
        0 <= k < b.instrs@.len() && 0 <= j < uses_of(b.instrs@[k]).len() ==> #[trigger] uses_of(
            b.instrs@[k],
        )[j] < f.vregs
    &&& read_at_end(b.term) matches Some(c) ==> c < f.vregs
    &&& b.term matches Terminator::Branch { if_true, if_false, .. } ==> if_true < f.blocks@.len()
        && if_false < f.blocks@.len()
}

/// Whether every block of `f` is as `block_ok` says.
pub open spec fn blocks_ok(f: IrFunction) -> bool {
    forall|b: int| 0 <= b < f.blocks@.len() ==> block_ok(f, #[trigger] f.blocks@[b])
}

/// What `exposed` and `kills` say of every virtual register below `n`.
fn block_sets(b: &Block, n: u32) -> (r: (Vec<bool>, Vec<bool>))
    requires
        forall|k: int|
            0 <= k < b.instrs@.len() ==> (def_of(#[trigger] b.instrs@[k]) matches Some(d) ==> d
                < n),
        forall|k: int, j: int|
            0 <= k < b.instrs@.len() && 0 <= j < uses_of(b.instrs@[k]).len() ==> #[trigger] uses_of(
                b.instrs@[k],
            )[j] < n,
        read_at_end(b.term) matches Some(c) ==> c < n,
    ensures
        r.0@.len() == n,
        r.1@.len() == n,
        forall|v: u32| v < n ==> #[trigger] r.0@[v as int] == exposed(*b, v),
        forall|v: u32| v < n ==> #[trigger] r.1@[v as int] == kills(*b, v),
{
    let mut reads: Vec<bool> = vec![false; n as usize];
    let mut kill: Vec<bool> = vec![false; n as usize];
    let mut k: usize = 0;
    while k < b.instrs.len()
        invariant
            k <= b.instrs.len(),
            reads@.len() == n,
            kill@.len() == n,
            forall|v: u32| v < n ==> #[trigger] reads@[v as int] == read_before(*b, k as int, v),
            forall|v: u32| v < n ==> #[trigger] kill@[v as int] == defined_before(*b, k as int, v),
            forall|k: int|
                0 <= k < b.instrs@.len() ==> (def_of(#[trigger] b.instrs@[k]) matches Some(d) ==> d
                    < n),
            forall|k: int, j: int|
                0 <= k < b.instrs@.len() && 0 <= j < uses_of(b.instrs@[k]).len()
                    ==> #[trigger] uses_of(b.instrs@[k])[j] < n,
        decreases b.instrs.len() - k,
    {
        let ghost reads0 = reads@;
        let (d, u) = uses_and_defs(&b.instrs[k]);
        let ghost ins = b.instrs@[k as int];
        let mut j: usize = 0;
        while j < u.len()
            invariant
                j <= u.len(),
                reads@.len() == n,
                kill@.len() == n,
                reads0.len() == n,
                u@ == uses_of(ins),
                forall|j: int| 0 <= j < u@.len() ==> #[trigger] u@[j] < n,
                forall|v: u32|
                    v < n ==> #[trigger] reads@[v as int] == (reads0[v as int] || (u@.take(
                        j as int,
                    ).contains(v) && !kill@[v as int])),
            decreases u.len() - j,
        {
            let w: u32 = u[j];
            let ghost g = reads@;
            if !kill[w as usize] {
                reads.set(w as usize, true);
            }
            proof {
                let t0 = u@.take(j as int);
                let t1 = u@.take(j + 1);
                assert(t1 =~= t0.push(w));
                assert forall|v: u32| v < n implies #[trigger] reads@[v as int] == (reads0[v as int]
                    || (t1.contains(v) && !kill@[v as int])) by {
                    assert(g[v as int] == (reads0[v as int] || (t0.contains(v) && !kill@[v as int])));
                    if t0.contains(v) {
                        let i = choose|i: int| 0 <= i < t0.len() && t0[i] == v;
                        assert(t1[i] == v);
                    }
                    if v == w {
                        assert(t1[j as int] == v);
                    }
                    if t1.contains(v) && v != w {
                        let i = choose|i: int| 0 <= i < t1.len() && t1[i] == v;
                        assert(t0[i] == v);
                    }
                }
            }
            j += 1;
        }
        proof {
            assert(u@.take(j as int) =~= u@);
            assert forall|v: u32| v < n implies #[trigger] reads@[v as int] == read_before(
                *b,
                k + 1,
                v,
            ) by {
                assert(reads0[v as int] == read_before(*b, k as int, v));
                assert(kill@[v as int] == defined_before(*b, k as int, v));
                if read_before(*b, k + 1, v) {
                    let i = choose|i: int|
                        0 <= i < k + 1 && uses_of(#[trigger] b.instrs@[i]).contains(v)
                            && !defined_before(*b, i, v);
                    if i < k {
                        assert(read_before(*b, k as int, v));
                    }
                }
                if read_before(*b, k as int, v) {
                    let i = choose|i: int|
                        0 <= i < k && uses_of(#[trigger] b.instrs@[i]).contains(v)
                            && !defined_before(*b, i, v);
                    assert(0 <= i < k + 1);
                }
                if uses_of(ins).contains(v) && !defined_before(*b, k as int, v) {
                    assert(uses_of(b.instrs@[k as int]).contains(v));
                }
            }
        }
        let ghost kill0 = kill@;
        if let Some(w) = d {
            kill.set(w as usize, true);
        }
        proof {
            assert forall|v: u32| v < n implies #[trigger] kill@[v as int] == defined_before(
                *b,
                k + 1,
                v,
            ) by {
                assert(kill0[v as int] == defined_before(*b, k as int, v));
                if def_of(ins) == Some(v) {
                    assert(def_of(b.instrs@[k as int]) == Some(v));
                }
                if defined_before(*b, k as int, v) {
                    let i = choose|i: int|
                        0 <= i < k && def_of(#[trigger] b.instrs@[i]) == Some(v);
                    assert(0 <= i < k + 1);
                }
            }
        }
        k += 1;
    }
    if let Some(v) = end_operand(&b.term) {
        if !kill[v as usize] {
            reads.set(v as usize, true);
        }
    }
    (reads, kill)
}

/// One row of booleans per block, one column per virtual register.
pub open spec fn is_table(rows: Seq<Vec<bool>>, n: int, width: int) -> bool {
    &&& rows.len() == n
    &&& forall|b: int| 0 <= b < n ==> (#[trigger] rows[b])@.len() == width
}

/// The liveness equation: what `rows` implies for `v` at the entry of `b`.
spec fn equation(f: IrFunction, rows: Seq<Vec<bool>>, b: int, v: u32) -> bool {
    exposed(f.blocks@[b], v) || (!kills(f.blocks@[b], v) && exists|s: int| #[trigger]
        succ(f, b, s) && rows[s]@[v as int])
}

/// Number of unset entries of a row.
spec fn unset(row: Seq<bool>) -> nat
    decreases row.len(),
{
    if row.len() == 0 {
        0
    } else {
        unset(row.drop_last()) + if row.last() {
            0nat
        } else {
            1nat
        }
    }
}

/// Number of unset entries of a table.
spec fn unset_all(rows: Seq<Vec<bool>>) -> nat
    decreases rows.len(),
{
    if rows.len() == 0 {
        0
    } else {
        unset_all(rows.drop_last()) + unset(rows.last()@)
    }
}

proof fn lemma_unset_grows(old_row: Seq<bool>, new_row: Seq<bool>)
    requires
        old_row.len() == new_row.len(),
        forall|i: int| 0 <= i < old_row.len() && #[trigger] old_row[i] ==> new_row[i],
    ensures
        unset(new_row) <= unset(old_row),
        old_row != new_row ==> unset(new_row) < unset(old_row),
    decreases old_row.len(),
{
    if old_row.len() > 0 {
        let o = old_row.drop_last();
        let w = new_row.drop_last();
        assert forall|i: int| 0 <= i < o.len() && #[trigger] o[i] implies w[i] by {
            assert(old_row[i]);
        }
        lemma_unset_grows(o, w);
        assert(old_row[old_row.len() - 1] ==> new_row[old_row.len() - 1]);
        if o == w && old_row.last() == new_row.last() {
            assert(old_row =~= o.push(old_row.last()));
            assert(new_row =~= w.push(new_row.last()));
        }
    } else {
        assert(old_row =~= new_row);
    }
}

proof fn lemma_unset_all_update(rows: Seq<Vec<bool>>, b: int, row: Vec<bool>)
    requires
        0 <= b < rows.len(),
    ensures
        unset_all(rows.update(b, row)) + unset(rows[b]@) == unset_all(rows) + unset(row@),
    decreases rows.len(),
{
    let up = rows.update(b, row);
    if b == rows.len() - 1 {
        assert(up.drop_last() =~= rows.drop_last());
    } else {
        assert(up.drop_last() =~= rows.drop_last().update(b, row));
        lemma_unset_all_update(rows.drop_last(), b, row);
    }
}

/// A table that satisfies the liveness equation holds everything that is live.
proof fn lemma_fixpoint_complete(f: IrFunction, rows: Seq<Vec<bool>>, n: nat, b: int, v: u32)
    requires
        blocks_ok(f),
        forall|b: int, v: u32|
            0 <= b < f.blocks@.len() && v < f.vregs ==> (equation(f, rows, b, v)
                ==> #[trigger] rows[b]@[v as int]),
        0 <= b < f.blocks@.len(),
        v < f.vregs,
        live_within(f, n, b, v),
    ensures
        rows[b]@[v as int],
    decreases n,
{
    if !exposed(f.blocks@[b], v) {
        let s = choose|s: int| #[trigger]
            succ(f, b, s) && live_within(f, (n - 1) as nat, s, v);
        assert(block_ok(f, f.blocks@[b]));
        lemma_fixpoint_complete(f, rows, (n - 1) as nat, s, v);
        assert(equation(f, rows, b, v));
    }
}

/// What the liveness equation yields from live entries is live.
proof fn lemma_equation_sound(f: IrFunction, rows: Seq<Vec<bool>>, b: int, v: u32)
    requires
        blocks_ok(f),
        0 <= b < f.blocks@.len(),
        v < f.vregs,
        forall|b: int, v: u32|
            0 <= b < f.blocks@.len() && v < f.vregs && #[trigger] rows[b]@[v as int] ==> live_in(
                f,
                b,
                v,
            ),
        equation(f, rows, b, v),
    ensures
        live_in(f, b, v),
{
    if exposed(f.blocks@[b], v) {
        assert(live_within(f, 0, b, v));
    } else {
        let s = choose|s: int| #[trigger] succ(f, b, s) && rows[s]@[v as int];
        assert(block_ok(f, f.blocks@[b]));
        assert(live_in(f, s, v));
        let n = choose|n: nat| live_within(f, n, s, v);
        assert(live_within(f, n + 1, b, v));
    }
}

/// The right-hand side of the liveness equation for block `b`.
fn solve_row(
    f: &IrFunction,
    b: usize,
    reads: &Vec<bool>,
    kill: &Vec<bool>,
    rows: &Vec<Vec<bool>>,
) -> (row: Vec<bool>)
    requires
        blocks_ok(*f),
        b < f.blocks@.len(),
        is_table(rows@, f.blocks@.len() as int, f.vregs as int),
        reads@.len() == f.vregs,
        kill@.len() == f.vregs,
        forall|v: u32| v < f.vregs ==> #[trigger] reads@[v as int] == exposed(f.blocks@[b as int], v),
        forall|v: u32| v < f.vregs ==> #[trigger] kill@[v as int] == kills(f.blocks@[b as int], v),
    ensures
        row@.len() == f.vregs,
        forall|v: u32| v < f.vregs ==> #[trigger] row@[v as int] == equation(*f, rows@, b as int, v),
{
    let mut row: Vec<bool> = Vec::new();
    let mut v: u32 = 0;
    proof {
        assert(block_ok(*f, f.blocks@[b as int]));
    }
    while v < f.vregs
        invariant
            v <= f.vregs,
            row@.len() == v,
            b < f.blocks@.len(),
            block_ok(*f, f.blocks@[b as int]),
            is_table(rows@, f.blocks@.len() as int, f.vregs as int),
            reads@.len() == f.vregs,
            kill@.len() == f.vregs,
            forall|v: u32|
                v < f.vregs ==> #[trigger] reads@[v as int] == exposed(f.blocks@[b as int], v),
            forall|v: u32|
                v < f.vregs ==> #[trigger] kill@[v as int] == kills(f.blocks@[b as int], v),
            forall|w: u32| w < v ==> #[trigger] row@[w as int] == equation(*f, rows@, b as int, w),
        decreases f.vregs - v,
    {
        let mut after: bool = false;
        if let Terminator::Branch { if_true, if_false, .. } = &f.blocks[b].term {
            after = rows[*if_true as usize][v as usize] || rows[*if_false as usize][v as usize];
            proof {
                assert(succ(*f, b as int, *if_true as int));
                assert(succ(*f, b as int, *if_false as int));
            }
        }
        let ghost row0 = row@;
        row.push(reads[v as usize] || (!kill[v as usize] && after));
        proof {
            assert(reads@[v as int] == exposed(f.blocks@[b as int], v));
            assert(kill@[v as int] == kills(f.blocks@[b as int], v));
            assert(row@[v as int] == equation(*f, rows@, b as int, v));
            assert forall|w: u32| w < v + 1 implies #[trigger] row@[w as int] == equation(
                *f,
                rows@,
                b as int,
                w,
            ) by {
                if w < v {
                    assert(row0[w as int] == equation(*f, rows@, b as int, w));
                }
            }
        }
        v += 1;
    }
    row
}

/// Whether two rows of equal length differ.
fn rows_differ(a: &Vec<bool>, b: &Vec<bool>) -> (r: bool)
    requires
        a@.len() == b@.len(),
    ensures
        r == (a@ != b@),
{
    let mut i: usize = 0;
    while i < a.len()
        invariant
            i <= a.len(),
            a@.len() == b@.len(),
            forall|j: int| 0 <= j < i ==> a@[j] == b@[j],
        decreases a.len() - i,
    {
        if a[i] != b[i] {
            return true;
        }
        i += 1;
    }
    proof {
        assert(a@ =~= b@);
    }
    false
}

/// One backward sweep over the blocks. Entries are only ever set, and the
/// result says whether one was.
fn sweep(
    f: &IrFunction,
    reads: &Vec<Vec<bool>>,
    kill: &Vec<Vec<bool>>,
    live: &mut Vec<Vec<bool>>,
) -> (changed: bool)
    requires
        blocks_ok(*f),
        is_table(old(live)@, f.blocks@.len() as int, f.vregs as int),
        is_table(reads@, f.blocks@.len() as int, f.vregs as int),
        is_table(kill@, f.blocks@.len() as int, f.vregs as int),
        forall|b: int, v: u32|
            0 <= b < f.blocks@.len() && v < f.vregs ==> #[trigger] reads@[b]@[v as int] == exposed(
                f.blocks@[b],
                v,
            ),
        forall|b: int, v: u32|
            0 <= b < f.blocks@.len() && v < f.vregs ==> #[trigger] kill@[b]@[v as int] == kills(
                f.blocks@[b],
                v,
            ),
        forall|b: int, v: u32|
            0 <= b < f.blocks@.len() && v < f.vregs && #[trigger] old(live)@[b]@[v as int]
                ==> live_in(*f, b, v) && equation(*f, old(live)@, b, v),
    ensures
        is_table(final(live)@, f.blocks@.len() as int, f.vregs as int),
        forall|b: int, v: u32|
            0 <= b < f.blocks@.len() && v < f.vregs && #[trigger] final(live)@[b]@[v as int]
                ==> live_in(*f, b, v) && equation(*f, final(live)@, b, v),
        changed ==> unset_all(final(live)@) < unset_all(old(live)@),
        !changed ==> final(live)@ == old(live)@,
        !changed ==> forall|b: int, v: u32|
            0 <= b < f.blocks@.len() && v < f.vregs ==> #[trigger] final(live)@[b]@[v as int]
                == equation(*f, final(live)@, b, v),
{
    let mut changed: bool = false;
    let ghost before = live@;
    let mut b: usize = f.blocks.len();
    while b > 0
        invariant
            b <= f.blocks@.len(),
            blocks_ok(*f),
            is_table(live@, f.blocks@.len() as int, f.vregs as int),
            is_table(reads@, f.blocks@.len() as int, f.vregs as int),
            is_table(kill@, f.blocks@.len() as int, f.vregs as int),
            forall|b: int, v: u32|
                0 <= b < f.blocks@.len() && v < f.vregs ==> #[trigger] reads@[b]@[v as int]
                    == exposed(f.blocks@[b], v),
            forall|b: int, v: u32|
                0 <= b < f.blocks@.len() && v < f.vregs ==> #[trigger] kill@[b]@[v as int] == kills(
                    f.blocks@[b],
                    v,
                ),
            forall|b: int, v: u32|
                0 <= b < f.blocks@.len() && v < f.vregs && #[trigger] live@[b]@[v as int]
                    ==> live_in(*f, b, v) && equation(*f, live@, b, v),
            changed ==> unset_all(live@) < unset_all(before),
            !changed ==> live@ == before,
            !changed ==> forall|c: int, v: u32|
                b <= c < f.blocks@.len() && v < f.vregs ==> #[trigger] live@[c]@[v as int]
                    == equation(*f, live@, c, v),
        decreases b,
    {
        b -= 1;
        let row: Vec<bool> = solve_row(f, b, &reads[b], &kill[b], live);
        let ghost cur = live@;
        let ghost r = row;
        proof {
            assert forall|i: int| 0 <= i < cur[b as int]@.len() && #[trigger] cur[b as int]@[i]
                implies row@[i] by {
                let v = i as u32;
                assert(cur[b as int]@[v as int]);
                assert(equation(*f, cur, b as int, v));
                assert(row@[v as int] == equation(*f, cur, b as int, v));
            }
            lemma_unset_grows(cur[b as int]@, row@);
            lemma_unset_all_update(cur, b as int, row);
        }
        if rows_differ(&row, &live[b]) {
            live.set(b, row);
            changed = true;
            proof {
                assert(live@ =~= cur.update(b as int, r));
                assert forall|c: int, v: u32|
                    0 <= c < f.blocks@.len() && v < f.vregs
                        && cur[c]@[v as int] implies #[trigger] live@[c]@[v as int] by {
                    if c == b {
                        assert(cur[b as int]@[v as int]);
                        assert(r@[v as int]);
                    }
                }
                assert forall|c: int, v: u32|
                    0 <= c < f.blocks@.len() && v < f.vregs && #[trigger] live@[c]@[v as int]
                    implies live_in(*f, c, v) && equation(*f, live@, c, v) by {
                    if c == b {
                        assert(r@[v as int] == equation(*f, cur, b as int, v));
                        lemma_equation_sound(*f, cur, c, v);
                    } else {
                        assert(cur[c]@[v as int]);
                    }
                    assert(equation(*f, cur, c, v));
                    if !exposed(f.blocks@[c], v) {
                        let s = choose|s: int| #[trigger] succ(*f, c, s) && cur[s]@[v as int];
                        assert(block_ok(*f, f.blocks@[c]));
                        assert(live@[s]@[v as int]);
                        assert(succ(*f, c, s));
                    }
                }
            }
        } else {
            proof {
                assert forall|v: u32| v < f.vregs implies #[trigger] live@[b as int]@[v as int]
                    == equation(*f, live@, b as int, v) by {
                    assert(r@[v as int] == equation(*f, cur, b as int, v));
                }
            }
        }
    }
    changed
}

/// The liveness of every virtual register at the entry of every block.
pub fn live_sets(f: &IrFunction) -> (live: Vec<Vec<bool>>)
    requires
        blocks_ok(*f),
    ensures
        is_table(live@, f.blocks@.len() as int, f.vregs as int),
        forall|b: int, v: u32|
            0 <= b < f.blocks@.len() && v < f.vregs ==> #[trigger] live@[b]@[v as int] == live_in(
                *f,
                b,
                v,
            ),
{
    let mut reads: Vec<Vec<bool>> = Vec::new();
    let mut kill: Vec<Vec<bool>> = Vec::new();
    let mut live: Vec<Vec<bool>> = Vec::new();
    let mut k: usize = 0;
    while k < f.blocks.len()
        invariant
            k <= f.blocks@.len(),
            blocks_ok(*f),
            is_table(reads@, k as int, f.vregs as int),
            is_table(kill@, k as int, f.vregs as int),
            is_table(live@, k as int, f.vregs as int),
            forall|b: int, v: u32|
                0 <= b < k && v < f.vregs ==> #[trigger] reads@[b]@[v as int] == exposed(
                    f.blocks@[b],
                    v,
                ),
            forall|b: int, v: u32|
                0 <= b < k && v < f.vregs ==> #[trigger] kill@[b]@[v as int] == kills(
                    f.blocks@[b],
                    v,
                ),
            forall|b: int, v: u32| 0 <= b < k && v < f.vregs ==> !#[trigger] live@[b]@[v as int],
        decreases f.blocks.len() - k,
    {
        proof {
            assert(block_ok(*f, f.blocks@[k as int]));
        }
        let (r, d) = block_sets(&f.blocks[k], f.vregs);
        reads.push(r);
        kill.push(d);
        let none: Vec<bool> = vec![false; f.vregs as usize];
        live.push(none);
        k += 1;
    }
    let mut changed: bool = true;
    while changed
        invariant
            blocks_ok(*f),
            is_table(live@, f.blocks@.len() as int, f.vregs as int),
            is_table(reads@, f.blocks@.len() as int, f.vregs as int),
            is_table(kill@, f.blocks@.len() as int, f.vregs as int),
            forall|b: int, v: u32|
                0 <= b < f.blocks@.len() && v < f.vregs ==> #[trigger] reads@[b]@[v as int]
                    == exposed(f.blocks@[b], v),
            forall|b: int, v: u32|
                0 <= b < f.blocks@.len() && v < f.vregs ==> #[trigger] kill@[b]@[v as int] == kills(
                    f.blocks@[b],
                    v,
                ),
            forall|b: int, v: u32|
                0 <= b < f.blocks@.len() && v < f.vregs && #[trigger] live@[b]@[v as int]
                    ==> live_in(*f, b, v) && equation(*f, live@, b, v),
            !changed ==> forall|b: int, v: u32|
                0 <= b < f.blocks@.len() && v < f.vregs ==> #[trigger] live@[b]@[v as int]
                    == equation(*f, live@, b, v),
        decreases unset_all(live@), changed as int,
    {
        changed = sweep(f, &reads, &kill, &mut live);
    }
    proof {
        assert forall|b: int, v: u32|
            0 <= b < f.blocks@.len() && v < f.vregs implies #[trigger] live@[b]@[v as int]
            == live_in(*f, b, v) by {
            if live_in(*f, b, v) {
                let n = choose|n: nat| live_within(*f, n, b, v);
                lemma_fixpoint_complete(*f, live@, n, b, v);
            }
        }
    }
    live
}

} // verus!
