//! The machine code of a program: its functions, the runtime helpers that
//! they call, its data and its relocations.
//!
//! The data blob holds the literal strings, one word per vtable slot, one
//! word per static field, the exception state block, and the word for the
//! stack pointer of process start, in this order; the last two only where the
//! program needs them. So the word is the last one wherever there is one.
use crate::bytes::{push_bytes, push_zeros, zeros};
use crate::ir::{Block, Instr, Program, ReceiverKind, Terminator};
use crate::mc_serialize::{decode, decoded, encode, encoded};
use crate::target::{
    export_views, text_pairs, texts, MachineCode, McView, Reloc, RelocKind, Section, Sym,
    TargetError,
};
use crate::x86::emit::{
    emitted, extends, helper_ready, site_ok, CallTarget, Emit, Emitter, Uses,
};
use crate::x86::function::{
    block_uses_exc, branches_land, branches_stay, function_code, function_encodable, laid_out,
};
use crate::x86::instrs::{uses_exc, Context, Cx};
use crate::x86::runtime::Runtime;
use vstd::prelude::*;

verus! {

/// The machine-code backend.
#[derive(Debug, Clone, Copy)]
pub struct Backend;

// ---- what the program uses

/// Whether `p` builds the argument array.
pub open spec fn program_uses_argv(p: Program) -> bool {
    exists|f: int, b: int, k: int|
        0 <= f < p.functions@.len() && 0 <= b < p.functions@[f].blocks@.len() && 0 <= k
            < p.functions@[f].blocks@[b].instrs@.len()
            && #[trigger] p.functions@[f].blocks@[b].instrs@[k] is BuildArgv
}

/// Whether `p` calls on the exception runtime.
pub open spec fn program_uses_exc(p: Program) -> bool {
    exists|f: int, b: int|
        0 <= f < p.functions@.len() && 0 <= b < p.functions@[f].blocks@.len() && block_uses_exc(
            #[trigger] p.functions@[f].blocks@[b],
        )
}

pub fn uses_argv_in(p: &Program) -> (r: bool)
    ensures
        r == program_uses_argv(*p),
{
    let mut f: usize = 0;
    while f < p.functions.len()
        invariant
            f <= p.functions@.len(),
            forall|g: int, b: int, k: int|
                0 <= g < f && 0 <= b < p.functions@[g].blocks@.len() && 0 <= k
                    < p.functions@[g].blocks@[b].instrs@.len()
                    ==> !(#[trigger] p.functions@[g].blocks@[b].instrs@[k] is BuildArgv),
        decreases p.functions.len() - f,
    {
        let blocks: &Vec<Block> = &p.functions[f].blocks;
        let mut b: usize = 0;
        while b < blocks.len()
            invariant
                f < p.functions@.len(),
                blocks@ == p.functions@[f as int].blocks@,
                b <= blocks@.len(),
                forall|c: int, k: int|
                    0 <= c < b && 0 <= k < blocks@[c].instrs@.len()
                        ==> !(#[trigger] blocks@[c].instrs@[k] is BuildArgv),
            decreases blocks.len() - b,
        {
            let mut k: usize = 0;
            while k < blocks[b].instrs.len()
                invariant
                    f < p.functions@.len(),
                    blocks@ == p.functions@[f as int].blocks@,
                    b < blocks@.len(),
                    k <= blocks@[b as int].instrs@.len(),
                    forall|j: int|
                        0 <= j < k ==> !(#[trigger] blocks@[b as int].instrs@[j] is BuildArgv),
                decreases blocks@[b as int].instrs@.len() - k,
            {
                if let Instr::BuildArgv { .. } = &blocks[b].instrs[k] {
                    proof {
                        assert(p.functions@[f as int].blocks@[b as int].instrs@[k as int] is BuildArgv);
                    }
                    return true;
                }
                k += 1;
            }
            b += 1;
        }
        f += 1;
    }
    false
}

pub fn block_exc(b: &Block) -> (r: bool)
    ensures
        r == block_uses_exc(*b),
{
    match b.term {
        Terminator::Unwind { .. } => {
            return true;
        },
        Terminator::Rethrow => {
            return true;
        },
        _ => {},
    }
    let mut k: usize = 0;
    while k < b.instrs.len()
        invariant
            k <= b.instrs@.len(),
            forall|j: int| 0 <= j < k ==> !uses_exc(#[trigger] b.instrs@[j]),
        decreases b.instrs.len() - k,
    {
        let hit: bool = match &b.instrs[k] {
            Instr::HandlerEnter { .. } => true,
            Instr::HandlerPop => true,
            Instr::LoadExc { .. } => true,
            Instr::ClearInflight => true,
            _ => false,
        };
        if hit {
            proof {
                assert(uses_exc(b.instrs@[k as int]));
            }
            return true;
        }
        k += 1;
    }
    false
}

pub fn uses_exc_in(p: &Program) -> (r: bool)
    ensures
        r == program_uses_exc(*p),
{
    let mut f: usize = 0;
    while f < p.functions.len()
        invariant
            f <= p.functions@.len(),
            forall|g: int, b: int|
                0 <= g < f && 0 <= b < p.functions@[g].blocks@.len() ==> !block_uses_exc(
                    #[trigger] p.functions@[g].blocks@[b],
                ),
        decreases p.functions.len() - f,
    {
        let blocks: &Vec<Block> = &p.functions[f].blocks;
        let mut b: usize = 0;
        while b < blocks.len()
            invariant
                f < p.functions@.len(),
                blocks@ == p.functions@[f as int].blocks@,
                b <= blocks@.len(),
                forall|c: int| 0 <= c < b ==> !block_uses_exc(#[trigger] blocks@[c]),
            decreases blocks.len() - b,
        {
            if block_exc(&blocks[b]) {
                proof {
                    assert(block_uses_exc(p.functions@[f as int].blocks@[b as int]));
                }
                return true;
            }
            b += 1;
        }
        f += 1;
    }
    false
}

// ---- data layout

/// Number of vtable slots in the first `n` rows.
pub open spec fn slots_before(p: Program, n: int) -> int
    decreases n,
{
    if n <= 0 {
        0
    } else {
        slots_before(p, n - 1) + p.vtables@[n - 1].1@.len()
    }
}

/// Byte offset of vtable row `k`.
pub open spec fn vtable_offset(p: Program, k: int) -> int {
    p.strings@.len() + 8 * slots_before(p, k)
}

/// Byte offset of static field `k`.
pub open spec fn static_offset(p: Program, k: int) -> int {
    vtable_offset(p, p.vtables@.len() as int) + 8 * k
}

/// Byte offset of the exception state block, behind the static fields.
pub open spec fn exc_offset(p: Program) -> int {
    static_offset(p, p.statics@.len() as int)
}

/// Byte offset of the slot for the stack pointer of process start, behind the
/// exception state.
pub open spec fn argv_offset(p: Program, rt: Runtime) -> int {
    exc_offset(p) + if program_uses_exc(p) {
        rt.exc_state_size as int
    } else {
        0
    }
}

/// Size of the data blob.
pub open spec fn data_size(p: Program, rt: Runtime) -> int {
    argv_offset(p, rt) + if program_uses_argv(p) {
        8int
    } else {
        0
    }
}

/// The data blob: the strings, and zeros.
pub open spec fn data_of(p: Program, rt: Runtime) -> Seq<u8> {
    p.strings@ + zeros(data_size(p, rt) - p.strings@.len())
}

/// What emission knows of `p`.
pub open spec fn context_of(p: Program) -> Cx {
    Cx {
        vtable_offsets: Seq::new(p.vtables@.len(), |k: int| vtable_offset(p, k) as usize),
        statics: p.statics@.len() as int,
        takes_receiver: Seq::new(p.functions@.len(), |k: int| p.functions@[k].has_receiver()),
        uses_argv: program_uses_argv(p),
    }
}

/// Whether this target has code for all of `p`, and its data can be
/// addressed.
pub open spec fn program_encodable(p: Program, rt: Runtime) -> bool {
    &&& rt.ok()
    &&& data_size(p, rt) <= usize::MAX
    &&& forall|k: int|
        0 <= k < p.functions@.len() ==> function_encodable(
            context_of(p),
            program_uses_exc(p),
            #[trigger] p.functions@[k],
        )
}

// ---- code layout

/// The first `n` functions, and where each starts.
pub open spec fn functions_code(p: Program, n: int) -> (Emit, Seq<usize>)
    decreases n,
{
    if n <= 0 {
        (Emit::start(), Seq::empty())
    } else {
        let (s, bases) = functions_code(p, n - 1);
        (
            function_code(s, context_of(p), p.functions@[n - 1]),
            bases.push(s.code.len() as usize),
        )
    }
}

/// `s` with `snippet` behind it, where it is used.
pub open spec fn with_helper(s: Emit, used: bool, snippet: Seq<u8>) -> Emit {
    if used {
        s.raw(snippet)
    } else {
        s
    }
}

/// Where a helper appended to `s` starts, if it is used.
pub open spec fn helper_at(s: Emit, used: bool) -> Option<usize> {
    if used {
        Some(s.code.len() as usize)
    } else {
        None
    }
}

/// The snippet of the runtime helper number `k`, in layout order.
pub open spec fn snippet(rt: Runtime, k: int) -> Seq<u8> {
    if k == 0 {
        rt.itoa@
    } else if k == 1 {
        rt.itoa_err@
    } else if k == 2 {
        rt.scan_int@
    } else if k == 3 {
        rt.retain@
    } else if k == 4 {
        rt.release@
    } else if k == 5 {
        rt.alloc_revised@
    } else if k == 6 {
        rt.exc_enter@
    } else if k == 7 {
        rt.exc_pop@
    } else if k == 8 {
        rt.exc_load@
    } else if k == 9 {
        rt.exc_clear@
    } else if k == 10 {
        rt.exc_throw@
    } else {
        rt.exc_rethrow@
    }
}

/// Whether the runtime helper number `k` is brought along.
pub open spec fn helper_used(uses: Uses, exc: bool, k: int) -> bool {
    if k == 0 {
        uses.int
    } else if k == 1 {
        uses.int_err
    } else if k == 2 {
        uses.scan
    } else if k == 3 {
        uses.retain
    } else if k == 4 {
        uses.release
    } else if k == 5 {
        uses.alloc
    } else {
        exc
    }
}

/// The functions with the first `n` runtime helpers behind them.
pub open spec fn code_with_helpers(p: Program, rt: Runtime, n: int) -> Emit
    decreases n,
{
    if n <= 0 {
        functions_code(p, p.functions@.len() as int).0
    } else {
        let s = code_with_helpers(p, rt, n - 1);
        with_helper(s, helper_used(s.uses, program_uses_exc(p), n - 1), snippet(rt, n - 1))
    }
}

/// Where the runtime helper number `k` starts.
#[verifier::opaque]
pub open spec fn helper_start(p: Program, rt: Runtime, k: int) -> Option<usize> {
    let s = code_with_helpers(p, rt, k);
    helper_at(s, helper_used(s.uses, program_uses_exc(p), k))
}

// ---- relocations

/// The symbol of a call target.
pub open spec fn call_sym(t: CallTarget) -> Sym {
    match t {
        CallTarget::Fn(i) => Sym::Fn(i as usize),
        CallTarget::HelperItoa => Sym::HelperItoa,
        CallTarget::HelperItoaErr => Sym::HelperItoaErr,
        CallTarget::HelperScanInt => Sym::HelperScanInt,
        CallTarget::HelperRetain => Sym::HelperRetain,
        CallTarget::HelperRelease => Sym::HelperRelease,
        CallTarget::HelperAlloc => Sym::HelperAlloc,
        CallTarget::HelperExcEnter => Sym::HelperExcEnter,
        CallTarget::HelperExcPop => Sym::HelperExcPop,
        CallTarget::HelperExcThrow => Sym::HelperExcThrow,
        CallTarget::HelperExcRethrow => Sym::HelperExcRethrow,
        CallTarget::HelperExcLoad => Sym::HelperExcLoad,
        CallTarget::HelperExcClear => Sym::HelperExcClear,
    }
}

/// The relocations of the call sites.
pub open spec fn call_relocs(calls: Seq<(usize, CallTarget)>) -> Seq<Reloc> {
    Seq::new(
        calls.len(),
        |k: int|
            Reloc {
                kind: RelocKind::Rel32Call,
                section: Section::Code,
                site: calls[k].0,
                sym: call_sym(calls[k].1),
            },
    )
}

pub open spec fn address_of(section: Section, site: usize, sym: Sym) -> Reloc {
    Reloc { kind: RelocKind::Abs64, section, site, sym }
}

/// The relocations of the first `n` slots of a vtable row at `off`. A slot
/// without a function has none, and stays zero.
pub open spec fn row_relocs(off: int, row: Seq<usize>, n: int) -> Seq<Reloc>
    decreases n,
{
    if n <= 0 {
        Seq::empty()
    } else if row[n - 1] == usize::MAX {
        row_relocs(off, row, n - 1)
    } else {
        row_relocs(off, row, n - 1).push(
            address_of(Section::Data, (off + 8 * (n - 1)) as usize, Sym::Fn(row[n - 1])),
        )
    }
}

/// The relocations of the first `n` vtable rows.
pub open spec fn vtable_relocs(p: Program, n: int) -> Seq<Reloc>
    decreases n,
{
    if n <= 0 {
        Seq::empty()
    } else {
        let row = p.vtables@[n - 1].1@;
        vtable_relocs(p, n - 1) + row_relocs(vtable_offset(p, n - 1), row, row.len() as int)
    }
}

/// The relocation at `off` in the helper number `k`, if it is brought along.
pub open spec fn helper_reloc(p: Program, rt: Runtime, k: int, off: usize, sym: Sym) -> Seq<Reloc> {
    match helper_start(p, rt, k) {
        Some(at) => seq![address_of(Section::Code, (at + off) as usize, sym)],
        None => seq![],
    }
}

/// The relocations of the exception routines up to number `k`, in layout
/// order: each takes the state block.
pub open spec fn exc_relocs(p: Program, rt: Runtime, k: int) -> Seq<Reloc>
    decreases k,
{
    if k <= 6 {
        Seq::empty()
    } else {
        exc_relocs(p, rt, k - 1) + helper_reloc(
            p,
            rt,
            k - 1,
            rt.exc_base_offset,
            Sym::ExcState(exc_offset(p) as usize),
        )
    }
}

/// All relocations: addresses in the code, calls, vtable slots, the heap
/// base in the allocator and in the releaser, the exception state.
pub open spec fn relocs_of(p: Program, rt: Runtime) -> Seq<Reloc> {
    let s = functions_code(p, p.functions@.len() as int).0;
    s.relocs + call_relocs(s.calls) + vtable_relocs(p, p.vtables@.len() as int) + helper_reloc(
        p,
        rt,
        5,
        rt.alloc_revised_heapbase_offset,
        Sym::HeapBase,
    ) + helper_reloc(p, rt, 4, rt.release_heapbase_offset, Sym::HeapBase) + exc_relocs(p, rt, 12)
}

/// Symbol of a static field.
pub open spec fn static_symbol(class: Seq<char>, name: Seq<char>) -> Seq<char> {
    class + "::"@ + name
}

/// Whether the function of each export takes a receiver.
pub open spec fn export_receivers(p: Program) -> Seq<bool> {
    Seq::new(
        p.exports@.len(),
        |k: int|
            p.exports@[k].1 < p.functions@.len()
                && p.functions@[p.exports@[k].1 as int].has_receiver(),
    )
}

/// The machine code of `p`.
pub open spec fn machine_code(p: Program, rt: Runtime) -> McView {
    McView {
        code: code_with_helpers(p, rt, 12).code,
        data: data_of(p, rt),
        fn_bases: functions_code(p, p.functions@.len() as int).1,
        vtable_offsets: context_of(p).vtable_offsets,
        vtable_names: Seq::new(p.vtables@.len(), |k: int| p.vtables@[k].0@),
        static_offsets: Seq::new(p.statics@.len(), |k: int| static_offset(p, k) as usize),
        static_names: Seq::new(
            p.statics@.len(),
            |k: int| static_symbol(p.statics@[k].class@, p.statics@[k].name@),
        ),
        helper_itoa: helper_start(p, rt, 0),
        helper_itoa_err: helper_start(p, rt, 1),
        helper_scan_int: helper_start(p, rt, 2),
        helper_retain: helper_start(p, rt, 3),
        helper_release: helper_start(p, rt, 4),
        helper_alloc: helper_start(p, rt, 5),
        helper_exc_enter: helper_start(p, rt, 6),
        helper_exc_pop: helper_start(p, rt, 7),
        helper_exc_load: helper_start(p, rt, 8),
        helper_exc_clear: helper_start(p, rt, 9),
        helper_exc_throw: helper_start(p, rt, 10),
        helper_exc_rethrow: helper_start(p, rt, 11),
        exc_state_offset: if program_uses_exc(p) {
            Some(exc_offset(p) as usize)
        } else {
            None
        },
        helper_argv: if program_uses_argv(p) {
            Some(argv_offset(p, rt) as usize)
        } else {
            None
        },
        import_names: text_pairs(p.imports@),
        import_bases: Seq::empty(),
        import_abs: Seq::empty(),
        exports: export_views(p.exports@),
        export_takes_receiver: export_receivers(p),
        init_fn: p.init,
        relocs: relocs_of(p, rt),
        heap_size: p.heap_size,
    }
}

// ---- laws of the layout

/// Whether `r` patches bytes that exist, of `code` bytes of code and `data`
/// bytes of data.
pub open spec fn reloc_fits(code: int, data: int, r: Reloc) -> bool {
    let width = match r.kind {
        RelocKind::Abs64 => 8int,
        RelocKind::Rel32Call => 4int,
    };
    match r.section {
        Section::Code => r.site + width <= code,
        Section::Data => r.site + width <= data,
    }
}

/// Whether every relocation in `rs` is as `reloc_fits` says.
pub open spec fn relocs_fit(code: int, data: int, rs: Seq<Reloc>) -> bool {
    forall|k: int| 0 <= k < rs.len() ==> reloc_fits(code, data, #[trigger] rs[k])
}

/// Whether what `sym` stands for comes with `mc`. Functions and imports are
/// the program's own affair.
pub open spec fn sym_present(mc: McView, sym: Sym) -> bool {
    match sym {
        Sym::HelperItoa => mc.helper_itoa is Some,
        Sym::HelperItoaErr => mc.helper_itoa_err is Some,
        Sym::HelperScanInt => mc.helper_scan_int is Some,
        Sym::HelperRetain => mc.helper_retain is Some,
        Sym::HelperRelease => mc.helper_release is Some,
        Sym::HelperAlloc => mc.helper_alloc is Some,
        Sym::HelperExcEnter => mc.helper_exc_enter is Some,
        Sym::HelperExcPop => mc.helper_exc_pop is Some,
        Sym::HelperExcThrow => mc.helper_exc_throw is Some,
        Sym::HelperExcRethrow => mc.helper_exc_rethrow is Some,
        Sym::HelperExcLoad => mc.helper_exc_load is Some,
        Sym::HelperExcClear => mc.helper_exc_clear is Some,
        Sym::ExcState(off) => mc.exc_state_offset == Some(off),
        Sym::ArgvRsp => mc.helper_argv is Some,
        Sym::Name(_) => false,
        _ => true,
    }
}

/// Whether every symbol that a relocation of `mc` names comes with it.
pub open spec fn syms_present(mc: McView) -> bool {
    forall|k: int| 0 <= k < mc.relocs.len() ==> sym_present(mc, (#[trigger] mc.relocs[k]).sym)
}

/// Whether every branch of every function of `p` lands, in `code`, on the
/// start of its block.
pub open spec fn all_branches_land(p: Program, code: Seq<u8>, n: int) -> bool {
    forall|k: int|
        0 <= k < n ==> branches_land(
            code,
            #[trigger] laid_out(functions_code(p, k).0, context_of(p), p.functions@[k]),
        )
}

pub proof fn lemma_slots_grow(p: Program, a: int, b: int)
    requires
        0 <= a <= b,
    ensures
        0 <= slots_before(p, a) <= slots_before(p, b),
    decreases b,
{
    if a < b {
        lemma_slots_grow(p, a, b - 1);
    } else if b > 0 {
        lemma_slots_grow(p, a - 1, b - 1);
    }
}

// ---- emission

/// What emission knows of `p`.
pub fn gather(p: &Program, uses_argv: bool) -> (cx: Context)
    requires
        exc_offset(*p) <= usize::MAX,
        uses_argv == program_uses_argv(*p),
    ensures
        cx@ == context_of(*p),
{
    let mut vtable_offsets: Vec<usize> = Vec::new();
    let mut at: usize = p.strings.len();
    let mut k: usize = 0;
    while k < p.vtables.len()
        invariant
            k <= p.vtables@.len(),
            exc_offset(*p) <= usize::MAX,
            at == vtable_offset(*p, k as int),
            vtable_offsets@.len() == k,
            forall|j: int|
                0 <= j < k ==> #[trigger] vtable_offsets@[j] == vtable_offset(*p, j) as usize,
        decreases p.vtables.len() - k,
    {
        proof {
            lemma_slots_grow(*p, k + 1, p.vtables@.len() as int);
        }
        vtable_offsets.push(at);
        at = at + p.vtables[k].1.len() * 8;
        k += 1;
    }
    let mut takes_receiver: Vec<bool> = Vec::new();
    let mut f: usize = 0;
    while f < p.functions.len()
        invariant
            f <= p.functions@.len(),
            takes_receiver@.len() == f,
            forall|j: int|
                0 <= j < f ==> #[trigger] takes_receiver@[j] == p.functions@[j].has_receiver(),
        decreases p.functions.len() - f,
    {
        takes_receiver.push(p.functions[f].receiver != ReceiverKind::Static);
        f += 1;
    }
    let cx = Context { vtable_offsets, statics: p.statics.len(), takes_receiver, uses_argv };
    assert(cx@ =~= context_of(*p));
    cx
}

/// Emits the functions of `p`, and says where each starts.
fn emit_functions(p: &Program, cx: &Context, exc: bool) -> (r: (Emitter, Vec<usize>))
    requires
        cx@ == context_of(*p),
        exc == program_uses_exc(*p),
        forall|k: int|
            0 <= k < p.functions@.len() ==> function_encodable(
                context_of(*p),
                exc,
                #[trigger] p.functions@[k],
            ),
    ensures
        (r.0@, r.1@) == functions_code(*p, p.functions@.len() as int),
        r.0.ok(),
        r.0.exc == exc,
        r.0.argv == cx.uses_argv,
        all_branches_land(*p, r.0.code@, p.functions@.len() as int),
{
    let mut e: Emitter = Emitter::new(exc, cx.uses_argv);
    let mut bases: Vec<usize> = Vec::new();
    let mut k: usize = 0;
    while k < p.functions.len()
        invariant
            k <= p.functions@.len(),
            cx@ == context_of(*p),
            forall|k: int|
                0 <= k < p.functions@.len() ==> function_encodable(
                    context_of(*p),
                    exc,
                    #[trigger] p.functions@[k],
                ),
            e.ok(),
            e.exc == exc,
            e.argv == cx.uses_argv,
            e@ == functions_code(*p, k as int).0,
            bases@ == functions_code(*p, k as int).1,
            all_branches_land(*p, e.code@, k as int),
        decreases p.functions.len() - k,
    {
        let ghost before = e.code@;
        bases.push(e.code.len());
        e.emit_function(cx, &p.functions[k]);
        proof {
            assert forall|j: int| 0 <= j < k + 1 implies branches_land(
                e.code@,
                #[trigger] laid_out(functions_code(*p, j).0, context_of(*p), p.functions@[j]),
            ) by {
                if j < k {
                    branches_stay(
                        before,
                        e.code@,
                        laid_out(functions_code(*p, j).0, context_of(*p), p.functions@[j]),
                    );
                }
            }
        }
        k += 1;
    }
    (e, bases)
}

impl Emitter {
    /// Appends a helper, where it is used, and says where it starts.
    fn helper(&mut self, used: bool, code: &Vec<u8>) -> (at: Option<usize>)
        requires
            old(self).ok(),
        ensures
            emitted(*old(self), *final(self), with_helper(old(self)@, used, code@)),
            at == helper_at(old(self)@, used),
            at matches Some(a) ==> a + code@.len() <= final(self).code.len(),
    {
        if used {
            let at: usize = self.code.len();
            self.bytes(code.as_slice());
            Some(at)
        } else {
            None
        }
    }
}

/// The relocations of the call sites, behind `out`.
fn push_call_relocs(out: &mut Vec<Reloc>, calls: &Vec<(usize, CallTarget)>)
    ensures
        final(out)@ == old(out)@ + call_relocs(calls@),
{
    let mut k: usize = 0;
    proof {
        assert(out@ =~= old(out)@ + call_relocs(calls@).take(0));
    }
    while k < calls.len()
        invariant
            k <= calls@.len(),
            out@ == old(out)@ + call_relocs(calls@).take(k as int),
        decreases calls.len() - k,
    {
        let (site, t) = calls[k];
        let sym: Sym = match t {
            CallTarget::Fn(i) => Sym::Fn(i as usize),
            CallTarget::HelperItoa => Sym::HelperItoa,
            CallTarget::HelperItoaErr => Sym::HelperItoaErr,
            CallTarget::HelperScanInt => Sym::HelperScanInt,
            CallTarget::HelperRetain => Sym::HelperRetain,
            CallTarget::HelperRelease => Sym::HelperRelease,
            CallTarget::HelperAlloc => Sym::HelperAlloc,
            CallTarget::HelperExcEnter => Sym::HelperExcEnter,
            CallTarget::HelperExcPop => Sym::HelperExcPop,
            CallTarget::HelperExcThrow => Sym::HelperExcThrow,
            CallTarget::HelperExcRethrow => Sym::HelperExcRethrow,
            CallTarget::HelperExcLoad => Sym::HelperExcLoad,
            CallTarget::HelperExcClear => Sym::HelperExcClear,
        };
        out.push(Reloc { kind: RelocKind::Rel32Call, section: Section::Code, site, sym });
        proof {
            assert(out@ =~= old(out)@ + call_relocs(calls@).take(k + 1));
        }
        k += 1;
    }
    proof {
        assert(call_relocs(calls@).take(k as int) =~= call_relocs(calls@));
    }
}

/// The relocations of the vtable slots, behind `out`.
fn push_vtable_relocs(out: &mut Vec<Reloc>, p: &Program, offsets: &Vec<usize>)
    requires
        exc_offset(*p) <= usize::MAX,
        offsets@ == context_of(*p).vtable_offsets,
    ensures
        final(out)@ == old(out)@ + vtable_relocs(*p, p.vtables@.len() as int),
{
    let mut k: usize = 0;
    proof {
        assert(out@ =~= old(out)@ + vtable_relocs(*p, 0));
    }
    while k < p.vtables.len()
        invariant
            k <= p.vtables@.len(),
            exc_offset(*p) <= usize::MAX,
            offsets@ == context_of(*p).vtable_offsets,
            out@ == old(out)@ + vtable_relocs(*p, k as int),
        decreases p.vtables.len() - k,
    {
        let row: &Vec<usize> = &p.vtables[k].1;
        let ghost before = out@;
        let ghost off = vtable_offset(*p, k as int);
        proof {
            lemma_slots_grow(*p, k + 1, p.vtables@.len() as int);
            lemma_slots_grow(*p, k as int, k + 1);
            assert(offsets@[k as int] == off);
            assert(out@ =~= before + row_relocs(off, row@, 0));
        }
        let mut n: usize = 0;
        while n < row.len()
            invariant
                n <= row@.len(),
                k < offsets@.len(),
                offsets@[k as int] == off,
                off + 8 * row@.len() <= usize::MAX,
                out@ == before + row_relocs(off, row@, n as int),
            decreases row.len() - n,
        {
            if row[n] != usize::MAX {
                out.push(
                    Reloc {
                        kind: RelocKind::Abs64,
                        section: Section::Data,
                        site: offsets[k] + n * 8,
                        sym: Sym::Fn(row[n]),
                    },
                );
            }
            proof {
                assert(out@ =~= before + row_relocs(off, row@, n + 1));
            }
            n += 1;
        }
        proof {
            assert(out@ =~= old(out)@ + vtable_relocs(*p, k + 1));
        }
        k += 1;
    }
}

/// The relocation at `off` in the helper at `at`, if there is one, behind
/// `out`.
fn push_helper_reloc(out: &mut Vec<Reloc>, at: Option<usize>, off: usize, sym: Sym)
    requires
        at matches Some(a) ==> a + off <= usize::MAX,
    ensures
        final(out)@ == old(out)@ + match at {
            Some(a) => seq![address_of(Section::Code, (a + off) as usize, sym)],
            None => seq![],
        },
{
    if let Some(a) = at {
        out.push(Reloc { kind: RelocKind::Abs64, section: Section::Code, site: a + off, sym });
    }
    proof {
        assert(out@ =~= old(out)@ + match at {
            Some(a) => seq![address_of(Section::Code, (a + off) as usize, sym)],
            None => seq![],
        });
    }
}

// ---- lowering

/// Helpers go behind the code, and change nothing else.
pub proof fn lemma_helpers_behind(p: Program, rt: Runtime, j: int, k: int)
    requires
        0 <= j <= k,
    ensures
        code_with_helpers(p, rt, k).uses == code_with_helpers(p, rt, j).uses,
        code_with_helpers(p, rt, k).relocs == code_with_helpers(p, rt, j).relocs,
        code_with_helpers(p, rt, k).calls == code_with_helpers(p, rt, j).calls,
        code_with_helpers(p, rt, j).code.len() <= code_with_helpers(p, rt, k).code.len(),
        extends(code_with_helpers(p, rt, j).code, code_with_helpers(p, rt, k).code),
    decreases k,
{
    if j < k {
        lemma_helpers_behind(p, rt, j, k - 1);
    }
}

/// A helper that is brought along lies whole within the code.
pub proof fn lemma_helper_inside(p: Program, rt: Runtime, k: int)
    requires
        0 <= k < 12,
        code_with_helpers(p, rt, 12).code.len() <= usize::MAX,
    ensures
        helper_start(p, rt, k) is Some <==> helper_used(
            functions_code(p, p.functions@.len() as int).0.uses,
            program_uses_exc(p),
            k,
        ),
        helper_start(p, rt, k) matches Some(at) ==> at + snippet(rt, k).len()
            <= code_with_helpers(p, rt, 12).code.len(),
{
    reveal(helper_start);
    lemma_helpers_behind(p, rt, 0, k);
    lemma_helpers_behind(p, rt, k, k + 1);
    lemma_helpers_behind(p, rt, k + 1, 12);
}

proof fn lemma_fit_concat(code: int, data: int, a: Seq<Reloc>, b: Seq<Reloc>)
    requires
        relocs_fit(code, data, a),
        relocs_fit(code, data, b),
    ensures
        relocs_fit(code, data, a + b),
{
    assert forall|k: int| 0 <= k < (a + b).len() implies reloc_fits(
        code,
        data,
        #[trigger] (a + b)[k],
    ) by {
        if k < a.len() {
            assert((a + b)[k] == a[k]);
        } else {
            assert((a + b)[k] == b[k - a.len()]);
        }
    }
}

proof fn lemma_row_relocs_fit(off: int, row: Seq<usize>, n: int, code: int, data: int)
    requires
        0 <= off,
        0 <= n <= row.len(),
        off + 8 * n <= data <= usize::MAX,
    ensures
        relocs_fit(code, data, row_relocs(off, row, n)),
        forall|k: int|
            0 <= k < row_relocs(off, row, n).len() ==> (#[trigger] row_relocs(off, row, n)[k]).sym is Fn,
    decreases n,
{
    if n > 0 {
        lemma_row_relocs_fit(off, row, n - 1, code, data);
    }
}

proof fn lemma_vtable_relocs_fit(p: Program, n: int, code: int, data: int)
    requires
        0 <= n <= p.vtables@.len(),
        vtable_offset(p, n) <= data <= usize::MAX,
    ensures
        relocs_fit(code, data, vtable_relocs(p, n)),
        forall|k: int|
            0 <= k < vtable_relocs(p, n).len() ==> (#[trigger] vtable_relocs(p, n)[k]).sym is Fn,
    decreases n,
{
    if n > 0 {
        lemma_slots_grow(p, n - 1, n);
        lemma_slots_grow(p, 0, n - 1);
        lemma_vtable_relocs_fit(p, n - 1, code, data);
        let row = p.vtables@[n - 1].1@;
        let off = vtable_offset(p, n - 1);
        let a = vtable_relocs(p, n - 1);
        let b = row_relocs(off, row, row.len() as int);
        lemma_row_relocs_fit(off, row, row.len() as int, code, data);
        lemma_fit_concat(code, data, a, b);
        assert forall|k: int| 0 <= k < (a + b).len() implies (#[trigger] (a + b)[k]).sym is Fn by {
            if k < a.len() {
                assert((a + b)[k] == a[k]);
            } else {
                assert((a + b)[k] == b[k - a.len()]);
            }
        }
    }
}

proof fn lemma_exc_relocs_fit(p: Program, rt: Runtime, k: int, data: int)
    requires
        rt.ok(),
        6 <= k <= 12,
        code_with_helpers(p, rt, 12).code.len() <= usize::MAX,
    ensures
        relocs_fit(code_with_helpers(p, rt, 12).code.len() as int, data, exc_relocs(p, rt, k)),
        forall|j: int|
            0 <= j < exc_relocs(p, rt, k).len() ==> (#[trigger] exc_relocs(p, rt, k)[j]).sym
                == Sym::ExcState(exc_offset(p) as usize),
        !program_uses_exc(p) ==> exc_relocs(p, rt, k).len() == 0,
    decreases k,
{
    let code = code_with_helpers(p, rt, 12).code.len() as int;
    if k > 6 {
        lemma_exc_relocs_fit(p, rt, k - 1, data);
        lemma_helper_inside(p, rt, k - 1);
        let a = exc_relocs(p, rt, k - 1);
        let b = helper_reloc(
            p,
            rt,
            k - 1,
            rt.exc_base_offset,
            Sym::ExcState(exc_offset(p) as usize),
        );
        lemma_fit_concat(code, data, a, b);
        assert forall|j: int| 0 <= j < (a + b).len() implies (#[trigger] (a + b)[j]).sym
            == Sym::ExcState(exc_offset(p) as usize) by {
            if j < a.len() {
                assert((a + b)[j] == a[j]);
            } else {
                assert((a + b)[j] == b[j - a.len()]);
            }
        }
    }
}

/// Whether the open sites of `s` lie within its code.
pub open spec fn sites_fit(s: Emit) -> bool {
    &&& forall|k: int|
        0 <= k < s.relocs.len() ==> (#[trigger] s.relocs[k]).kind == RelocKind::Abs64
            && s.relocs[k].section == Section::Code && s.relocs[k].site + 8 <= s.code.len()
    &&& forall|k: int| 0 <= k < s.calls.len() ==> (#[trigger] s.calls[k]).0 + 4 <= s.code.len()
}

/// Every relocation of a lowered program patches bytes that exist.
pub proof fn lemma_relocs_fit(p: Program, rt: Runtime)
    requires
        rt.ok(),
        data_size(p, rt) <= usize::MAX,
        sites_fit(functions_code(p, p.functions@.len() as int).0),
        code_with_helpers(p, rt, 12).code.len() <= usize::MAX,
    ensures
        relocs_fit(
            machine_code(p, rt).code.len() as int,
            machine_code(p, rt).data.len() as int,
            machine_code(p, rt).relocs,
        ),
{
    let s = functions_code(p, p.functions@.len() as int).0;
    let code = machine_code(p, rt).code.len() as int;
    let data = machine_code(p, rt).data.len() as int;
    lemma_slots_grow(p, 0, p.vtables@.len() as int);
    lemma_helpers_behind(p, rt, 0, 12);
    assert(data == data_size(p, rt));
    let a = s.relocs;
    let b = call_relocs(s.calls);
    let c = vtable_relocs(p, p.vtables@.len() as int);
    let d = helper_reloc(p, rt, 5, rt.alloc_revised_heapbase_offset, Sym::HeapBase);
    let e = helper_reloc(p, rt, 4, rt.release_heapbase_offset, Sym::HeapBase);
    let g = exc_relocs(p, rt, 12);
    assert(relocs_fit(code, data, a)) by {
        assert forall|k: int| 0 <= k < a.len() implies reloc_fits(code, data, #[trigger] a[k]) by {
            assert(s.relocs[k].site + 8 <= s.code.len());
        }
    }
    assert(relocs_fit(code, data, b)) by {
        assert forall|k: int| 0 <= k < b.len() implies reloc_fits(code, data, #[trigger] b[k]) by {
            assert(s.calls[k].0 + 4 <= s.code.len());
        }
    }
    lemma_vtable_relocs_fit(p, p.vtables@.len() as int, code, data);
    lemma_helper_inside(p, rt, 5);
    lemma_helper_inside(p, rt, 4);
    lemma_exc_relocs_fit(p, rt, 12, data);
    lemma_fit_concat(code, data, a, b);
    lemma_fit_concat(code, data, a + b, c);
    lemma_fit_concat(code, data, a + b + c, d);
    lemma_fit_concat(code, data, a + b + c + d, e);
    lemma_fit_concat(code, data, a + b + c + d + e, g);
}

spec fn syms_in(mc: McView, rs: Seq<Reloc>) -> bool {
    forall|k: int| 0 <= k < rs.len() ==> sym_present(mc, (#[trigger] rs[k]).sym)
}

proof fn lemma_syms_concat(mc: McView, a: Seq<Reloc>, b: Seq<Reloc>)
    requires
        syms_in(mc, a),
        syms_in(mc, b),
    ensures
        syms_in(mc, a + b),
{
    assert forall|k: int| 0 <= k < (a + b).len() implies sym_present(
        mc,
        (#[trigger] (a + b)[k]).sym,
    ) by {
        if k < a.len() {
            assert((a + b)[k] == a[k]);
        } else {
            assert((a + b)[k] == b[k - a.len()]);
        }
    }
}

/// The helper that a call goes to comes with the code.
proof fn lemma_call_present(p: Program, rt: Runtime, t: CallTarget)
    requires
        code_with_helpers(p, rt, 12).code.len() <= usize::MAX,
        helper_ready(
            functions_code(p, p.functions@.len() as int).0.uses,
            program_uses_exc(p),
            t,
        ),
    ensures
        sym_present(machine_code(p, rt), call_sym(t)),
{
    match t {
        CallTarget::Fn(_) => {},
        CallTarget::HelperItoa => lemma_helper_inside(p, rt, 0),
        CallTarget::HelperItoaErr => lemma_helper_inside(p, rt, 1),
        CallTarget::HelperScanInt => lemma_helper_inside(p, rt, 2),
        CallTarget::HelperRetain => lemma_helper_inside(p, rt, 3),
        CallTarget::HelperRelease => lemma_helper_inside(p, rt, 4),
        CallTarget::HelperAlloc => lemma_helper_inside(p, rt, 5),
        CallTarget::HelperExcEnter => lemma_helper_inside(p, rt, 6),
        CallTarget::HelperExcPop => lemma_helper_inside(p, rt, 7),
        CallTarget::HelperExcLoad => lemma_helper_inside(p, rt, 8),
        CallTarget::HelperExcClear => lemma_helper_inside(p, rt, 9),
        CallTarget::HelperExcThrow => lemma_helper_inside(p, rt, 10),
        CallTarget::HelperExcRethrow => lemma_helper_inside(p, rt, 11),
    }
}

/// Every symbol that a relocation of a lowered program names comes with it.
proof fn lemma_syms_present(p: Program, rt: Runtime)
    requires
        rt.ok(),
        data_size(p, rt) <= usize::MAX,
        functions_code(p, p.functions@.len() as int).0.ok(
            program_uses_exc(p),
            program_uses_argv(p),
        ),
        code_with_helpers(p, rt, 12).code.len() <= usize::MAX,
    ensures
        syms_present(machine_code(p, rt)),
{
    let s = functions_code(p, p.functions@.len() as int).0;
    let mc = machine_code(p, rt);
    let a = s.relocs;
    let b = call_relocs(s.calls);
    let c = vtable_relocs(p, p.vtables@.len() as int);
    let d = helper_reloc(p, rt, 5, rt.alloc_revised_heapbase_offset, Sym::HeapBase);
    let e = helper_reloc(p, rt, 4, rt.release_heapbase_offset, Sym::HeapBase);
    let g = exc_relocs(p, rt, 12);
    let data = data_size(p, rt);
    lemma_slots_grow(p, 0, p.vtables@.len() as int);
    lemma_vtable_relocs_fit(p, p.vtables@.len() as int, 0, data);
    lemma_exc_relocs_fit(p, rt, 12, data);
    assert(syms_in(mc, a)) by {
        assert forall|k: int| 0 <= k < a.len() implies sym_present(mc, (#[trigger] a[k]).sym) by {
            assert(site_ok(s.code.len() as int, program_uses_argv(p), s.relocs[k]));
        }
    }
    assert(syms_in(mc, b)) by {
        assert forall|k: int| 0 <= k < b.len() implies sym_present(mc, (#[trigger] b[k]).sym) by {
            assert(s.calls[k].0 + 4 <= s.code.len());
            lemma_call_present(p, rt, s.calls[k].1);
        }
    }
    lemma_syms_concat(mc, a, b);
    lemma_syms_concat(mc, a + b, c);
    lemma_syms_concat(mc, a + b + c, d);
    lemma_syms_concat(mc, a + b + c + d, e);
    lemma_syms_concat(mc, a + b + c + d + e, g);
}

/// Where the helpers start.
struct HelperStarts {
    itoa: Option<usize>,
    itoa_err: Option<usize>,
    scan_int: Option<usize>,
    retain: Option<usize>,
    release: Option<usize>,
    alloc_revised: Option<usize>,
    exc_enter: Option<usize>,
    exc_pop: Option<usize>,
    exc_load: Option<usize>,
    exc_clear: Option<usize>,
    exc_throw: Option<usize>,
    exc_rethrow: Option<usize>,
}

impl HelperStarts {
    spec fn of(self, p: Program, rt: Runtime) -> bool {
        &&& self.itoa == helper_start(p, rt, 0)
        &&& self.itoa_err == helper_start(p, rt, 1)
        &&& self.scan_int == helper_start(p, rt, 2)
        &&& self.retain == helper_start(p, rt, 3)
        &&& self.release == helper_start(p, rt, 4)
        &&& self.alloc_revised == helper_start(p, rt, 5)
        &&& self.exc_enter == helper_start(p, rt, 6)
        &&& self.exc_pop == helper_start(p, rt, 7)
        &&& self.exc_load == helper_start(p, rt, 8)
        &&& self.exc_clear == helper_start(p, rt, 9)
        &&& self.exc_throw == helper_start(p, rt, 10)
        &&& self.exc_rethrow == helper_start(p, rt, 11)
    }
}

/// Appends the helper number `k`.
fn append_helper(
    e: &mut Emitter,
    p: Ghost<Program>,
    rt: &Runtime,
    k: Ghost<int>,
    used: bool,
    code: &Vec<u8>,
) -> (at: Option<usize>)
    requires
        old(e).ok(),
        0 <= k@ < 12,
        old(e)@ == code_with_helpers(p@, *rt, k@),
        used == helper_used(old(e).uses, program_uses_exc(p@), k@),
        code@ == snippet(*rt, k@),
    ensures
        final(e).ok(),
        final(e)@ == code_with_helpers(p@, *rt, k@ + 1),
        final(e).uses == old(e).uses,
        at == helper_start(p@, *rt, k@),
{
    proof {
        reveal(helper_start);
    }
    e.helper(used, code)
}

/// Appends the helpers that are used.
fn append_helpers(e: &mut Emitter, p: &Program, rt: &Runtime, exc: bool) -> (h: HelperStarts)
    requires
        old(e).ok(),
        old(e)@ == functions_code(*p, p.functions@.len() as int).0,
        exc == program_uses_exc(*p),
    ensures
        final(e).ok(),
        final(e)@ == code_with_helpers(*p, *rt, 12),
        h.of(*p, *rt),
{
    let uses: Uses = e.uses;
    let ghost g = *p;
    let itoa = append_helper(e, Ghost(g), rt, Ghost(0), uses.int, &rt.itoa);
    let itoa_err = append_helper(e, Ghost(g), rt, Ghost(1), uses.int_err, &rt.itoa_err);
    let scan_int = append_helper(e, Ghost(g), rt, Ghost(2), uses.scan, &rt.scan_int);
    let retain = append_helper(e, Ghost(g), rt, Ghost(3), uses.retain, &rt.retain);
    let release = append_helper(e, Ghost(g), rt, Ghost(4), uses.release, &rt.release);
    let alloc_revised = append_helper(e, Ghost(g), rt, Ghost(5), uses.alloc, &rt.alloc_revised);
    let exc_enter = append_helper(e, Ghost(g), rt, Ghost(6), exc, &rt.exc_enter);
    let exc_pop = append_helper(e, Ghost(g), rt, Ghost(7), exc, &rt.exc_pop);
    let exc_load = append_helper(e, Ghost(g), rt, Ghost(8), exc, &rt.exc_load);
    let exc_clear = append_helper(e, Ghost(g), rt, Ghost(9), exc, &rt.exc_clear);
    let exc_throw = append_helper(e, Ghost(g), rt, Ghost(10), exc, &rt.exc_throw);
    let exc_rethrow = append_helper(e, Ghost(g), rt, Ghost(11), exc, &rt.exc_rethrow);
    HelperStarts {
        itoa,
        itoa_err,
        scan_int,
        retain,
        release,
        alloc_revised,
        exc_enter,
        exc_pop,
        exc_load,
        exc_clear,
        exc_throw,
        exc_rethrow,
    }
}

/// The relocation of the exception routine number `k`, behind `out`.
fn push_exc_reloc(
    out: &mut Vec<Reloc>,
    p: &Program,
    rt: &Runtime,
    k: Ghost<int>,
    at: Option<usize>,
    off: usize,
    before: Ghost<Seq<Reloc>>,
)
    requires
        rt.ok(),
        6 <= k@ < 12,
        code_with_helpers(*p, *rt, 12).code.len() <= usize::MAX,
        at == helper_start(*p, *rt, k@),
        off == exc_offset(*p) as usize,
        old(out)@ == before@ + exc_relocs(*p, *rt, k@),
    ensures
        final(out)@ == before@ + exc_relocs(*p, *rt, k@ + 1),
{
    proof {
        lemma_helper_inside(*p, *rt, k@);
    }
    push_helper_reloc(out, at, rt.exc_base_offset, Sym::ExcState(off));
    proof {
        assert(out@ =~= before@ + exc_relocs(*p, *rt, k@ + 1));
    }
}

/// All relocations: those of the code, then the rest.
fn all_relocs(
    coded: Vec<Reloc>,
    calls: &Vec<(usize, CallTarget)>,
    p: &Program,
    rt: &Runtime,
    offsets: &Vec<usize>,
    h: &HelperStarts,
    exc_at: usize,
) -> (out: Vec<Reloc>)
    requires
        rt.ok(),
        data_size(*p, *rt) <= usize::MAX,
        coded@ == functions_code(*p, p.functions@.len() as int).0.relocs,
        calls@ == functions_code(*p, p.functions@.len() as int).0.calls,
        offsets@ == context_of(*p).vtable_offsets,
        code_with_helpers(*p, *rt, 12).code.len() <= usize::MAX,
        h.of(*p, *rt),
        exc_at == exc_offset(*p) as usize,
    ensures
        out@ == relocs_of(*p, *rt),
{
    let mut out: Vec<Reloc> = coded;
    push_call_relocs(&mut out, calls);
    push_vtable_relocs(&mut out, p, offsets);
    proof {
        lemma_helper_inside(*p, *rt, 4);
        lemma_helper_inside(*p, *rt, 5);
    }
    push_helper_reloc(
        &mut out,
        h.alloc_revised,
        rt.alloc_revised_heapbase_offset,
        Sym::HeapBase,
    );
    push_helper_reloc(&mut out, h.release, rt.release_heapbase_offset, Sym::HeapBase);
    let ghost before = out@;
    proof {
        assert(before =~= before + exc_relocs(*p, *rt, 6));
    }
    push_exc_reloc(&mut out, p, rt, Ghost(6), h.exc_enter, exc_at, Ghost(before));
    push_exc_reloc(&mut out, p, rt, Ghost(7), h.exc_pop, exc_at, Ghost(before));
    push_exc_reloc(&mut out, p, rt, Ghost(8), h.exc_load, exc_at, Ghost(before));
    push_exc_reloc(&mut out, p, rt, Ghost(9), h.exc_clear, exc_at, Ghost(before));
    push_exc_reloc(&mut out, p, rt, Ghost(10), h.exc_throw, exc_at, Ghost(before));
    push_exc_reloc(&mut out, p, rt, Ghost(11), h.exc_rethrow, exc_at, Ghost(before));
    out
}

/// The data blob.
fn build_data(p: &Program, rt: &Runtime, uses_argv: bool, exc: bool) -> (data: Vec<u8>)
    requires
        data_size(*p, *rt) <= usize::MAX,
        uses_argv == program_uses_argv(*p),
        exc == program_uses_exc(*p),
    ensures
        data@ == data_of(*p, *rt),
{
    let mut data: Vec<u8> = Vec::new();
    push_bytes(&mut data, p.strings.as_slice());
    proof {
        assert(data@ =~= p.strings@);
        lemma_slots_grow(*p, 0, p.vtables@.len() as int);
    }
    let mut k: usize = 0;
    while k < p.vtables.len()
        invariant
            k <= p.vtables@.len(),
            data_size(*p, *rt) <= usize::MAX,
            data@ =~= p.strings@ + zeros(8 * slots_before(*p, k as int)),
        decreases p.vtables.len() - k,
    {
        proof {
            lemma_slots_grow(*p, k as int, k + 1);
            lemma_slots_grow(*p, 0, k as int);
            lemma_slots_grow(*p, k + 1, p.vtables@.len() as int);
        }
        push_zeros(&mut data, p.vtables[k].1.len() * 8);
        k += 1;
    }
    push_zeros(&mut data, p.statics.len() * 8);
    if exc {
        push_zeros(&mut data, rt.exc_state_size);
    }
    if uses_argv {
        push_zeros(&mut data, 8);
    }
    proof {
        assert(data@ =~= data_of(*p, *rt));
    }
    data
}

fn static_offsets_of(p: &Program) -> (r: Vec<usize>)
    requires
        exc_offset(*p) <= usize::MAX,
    ensures
        r@ == Seq::new(p.statics@.len(), |k: int| static_offset(*p, k) as usize),
{
    let mut at: usize = p.strings.len();
    let mut k: usize = 0;
    while k < p.vtables.len()
        invariant
            k <= p.vtables@.len(),
            exc_offset(*p) <= usize::MAX,
            at == vtable_offset(*p, k as int),
        decreases p.vtables.len() - k,
    {
        proof {
            lemma_slots_grow(*p, k + 1, p.vtables@.len() as int);
        }
        at = at + p.vtables[k].1.len() * 8;
        k += 1;
    }
    let mut r: Vec<usize> = Vec::new();
    let mut j: usize = 0;
    while j < p.statics.len()
        invariant
            j <= p.statics@.len(),
            exc_offset(*p) <= usize::MAX,
            at == static_offset(*p, 0),
            r@ == Seq::new(j as nat, |k: int| static_offset(*p, k) as usize),
        decreases p.statics.len() - j,
    {
        r.push(at + j * 8);
        proof {
            assert(r@ =~= Seq::new((j + 1) as nat, |k: int| static_offset(*p, k) as usize));
        }
        j += 1;
    }
    r
}

/// Symbol of the static field `name` of `class`.
fn static_name(class: &String, name: &String) -> (r: String)
    ensures
        r@ == static_symbol(class@, name@),
{
    let mut r: String = class.clone();
    r.append("::");
    r.append(name.as_str());
    r
}

fn static_names_of(p: &Program) -> (r: Vec<String>)
    ensures
        texts(r@) == Seq::new(
            p.statics@.len(),
            |k: int| static_symbol(p.statics@[k].class@, p.statics@[k].name@),
        ),
{
    let mut r: Vec<String> = Vec::new();
    let mut k: usize = 0;
    while k < p.statics.len()
        invariant
            k <= p.statics@.len(),
            r@.len() == k,
            forall|j: int|
                0 <= j < k ==> (#[trigger] r@[j])@ == static_symbol(
                    p.statics@[j].class@,
                    p.statics@[j].name@,
                ),
        decreases p.statics.len() - k,
    {
        r.push(static_name(&p.statics[k].class, &p.statics[k].name));
        k += 1;
    }
    proof {
        assert(texts(r@) =~= Seq::new(
            p.statics@.len(),
            |k: int| static_symbol(p.statics@[k].class@, p.statics@[k].name@),
        ));
    }
    r
}

fn vtable_names_of(p: &Program) -> (r: Vec<String>)
    ensures
        texts(r@) == Seq::new(p.vtables@.len(), |k: int| p.vtables@[k].0@),
{
    let mut r: Vec<String> = Vec::new();
    let mut k: usize = 0;
    while k < p.vtables.len()
        invariant
            k <= p.vtables@.len(),
            r@.len() == k,
            forall|j: int| 0 <= j < k ==> (#[trigger] r@[j])@ == p.vtables@[j].0@,
        decreases p.vtables.len() - k,
    {
        r.push(p.vtables[k].0.clone());
        k += 1;
    }
    proof {
        assert(texts(r@) =~= Seq::new(p.vtables@.len(), |k: int| p.vtables@[k].0@));
    }
    r
}

fn copy_pairs(v: &Vec<(String, String)>) -> (r: Vec<(String, String)>)
    ensures
        text_pairs(r@) == text_pairs(v@),
{
    let mut r: Vec<(String, String)> = Vec::new();
    let mut k: usize = 0;
    while k < v.len()
        invariant
            k <= v@.len(),
            r@.len() == k,
            forall|j: int|
                0 <= j < k ==> (#[trigger] r@[j]).0@ == v@[j].0@ && r@[j].1@ == v@[j].1@,
        decreases v.len() - k,
    {
        r.push((v[k].0.clone(), v[k].1.clone()));
        k += 1;
    }
    proof {
        assert(text_pairs(r@) =~= text_pairs(v@));
    }
    r
}

fn copy_exports(v: &Vec<(String, usize, usize)>) -> (r: Vec<(String, usize, usize)>)
    ensures
        export_views(r@) == export_views(v@),
{
    let mut r: Vec<(String, usize, usize)> = Vec::new();
    let mut k: usize = 0;
    while k < v.len()
        invariant
            k <= v@.len(),
            r@.len() == k,
            forall|j: int|
                0 <= j < k ==> (#[trigger] r@[j]).0@ == v@[j].0@ && r@[j].1 == v@[j].1 && r@[j].2
                    == v@[j].2,
        decreases v.len() - k,
    {
        r.push((v[k].0.clone(), v[k].1, v[k].2));
        k += 1;
    }
    proof {
        assert(export_views(r@) =~= export_views(v@));
    }
    r
}

/// Whether each export takes a receiver.
fn receivers_of_exports(p: &Program) -> (r: Vec<bool>)
    ensures
        r@ == export_receivers(*p),
{
    let mut r: Vec<bool> = Vec::new();
    let mut k: usize = 0;
    while k < p.exports.len()
        invariant
            k <= p.exports@.len(),
            r@ == export_receivers(*p).take(k as int),
        decreases p.exports.len() - k,
    {
        let fi: usize = p.exports[k].1;
        r.push(fi < p.functions.len() && p.functions[fi].receiver != ReceiverKind::Static);
        proof {
            assert(r@ =~= export_receivers(*p).take(k + 1));
        }
        k += 1;
    }
    proof {
        assert(export_receivers(*p).take(k as int) =~= export_receivers(*p));
    }
    r
}

impl Backend {
    /// Lowers `p` to machine code. Relocations stay inside their blobs, what
    /// they name comes with the code, every branch lands on the start of its
    /// block, and the slot for the stack pointer of process start is the last
    /// word of the data.
    pub fn lower(&self, p: &Program, rt: &Runtime) -> (r: Result<MachineCode, TargetError>)
        requires
            program_encodable(*p, *rt),
        ensures
            r matches Ok(mc) && mc@ == machine_code(*p, *rt),
            relocs_fit(
                machine_code(*p, *rt).code.len() as int,
                machine_code(*p, *rt).data.len() as int,
                machine_code(*p, *rt).relocs,
            ),
            syms_present(machine_code(*p, *rt)),
            all_branches_land(*p, machine_code(*p, *rt).code, p.functions@.len() as int),
            program_uses_argv(*p) ==> machine_code(*p, *rt).helper_argv == Some(
                (machine_code(*p, *rt).data.len() - 8) as usize,
            ),
    {
        let uses_argv: bool = uses_argv_in(p);
        let exc: bool = uses_exc_in(p);
        proof {
            lemma_slots_grow(*p, 0, p.vtables@.len() as int);
        }
        let cx: Context = gather(p, uses_argv);
        let (mut e, fn_bases) = emit_functions(p, &cx, exc);
        let ghost functions = e;
        proof {
            e.lemma_ok();
        }
        let h: HelperStarts = append_helpers(&mut e, p, rt, exc);
        proof {
            assert(e.code@.len() == e.code.len());
            lemma_helpers_behind(*p, *rt, 0, 12);
            assert(sites_fit(functions@)) by {
                assert forall|k: int| 0 <= k < functions@.relocs.len() implies (
                #[trigger] functions@.relocs[k]).kind == RelocKind::Abs64
                    && functions@.relocs[k].section == Section::Code && functions@.relocs[k].site + 8
                    <= functions@.code.len() by {
                    assert(site_ok(
                        functions@.code.len() as int,
                        program_uses_argv(*p),
                        functions@.relocs[k],
                    ));
                }
            }
            lemma_relocs_fit(*p, *rt);
            lemma_syms_present(*p, *rt);
            assert forall|k: int| 0 <= k < p.functions@.len() implies branches_land(
                e.code@,
                #[trigger] laid_out(functions_code(*p, k).0, context_of(*p), p.functions@[k]),
            ) by {
                branches_stay(
                    functions.code@,
                    e.code@,
                    laid_out(functions_code(*p, k).0, context_of(*p), p.functions@[k]),
                );
            }
        }
        let static_offsets: Vec<usize> = static_offsets_of(p);
        let data: Vec<u8> = build_data(p, rt, uses_argv, exc);
        let argv_at: usize = if uses_argv {
            data.len() - 8
        } else {
            data.len()
        };
        let exc_at: usize = if exc {
            argv_at - rt.exc_state_size
        } else {
            argv_at
        };
        let relocs: Vec<Reloc> = all_relocs(
            e.relocs,
            &e.call_sites,
            p,
            rt,
            &cx.vtable_offsets,
            &h,
            exc_at,
        );
        let mc = MachineCode {
            code: e.code,
            data,
            fn_bases,
            vtable_offsets: cx.vtable_offsets,
            vtable_names: vtable_names_of(p),
            static_offsets,
            static_names: static_names_of(p),
            helper_itoa: h.itoa,
            helper_itoa_err: h.itoa_err,
            helper_scan_int: h.scan_int,
            helper_retain: h.retain,
            helper_release: h.release,
            helper_alloc: h.alloc_revised,
            helper_exc_enter: h.exc_enter,
            helper_exc_pop: h.exc_pop,
            helper_exc_throw: h.exc_throw,
            helper_exc_rethrow: h.exc_rethrow,
            helper_exc_load: h.exc_load,
            helper_exc_clear: h.exc_clear,
            exc_state_offset: if exc {
                Some(exc_at)
            } else {
                None
            },
            helper_argv: if uses_argv {
                Some(argv_at)
            } else {
                None
            },
            import_names: copy_pairs(&p.imports),
            import_bases: Vec::new(),
            import_abs: Vec::new(),
            exports: copy_exports(&p.exports),
            export_takes_receiver: receivers_of_exports(p),
            init_fn: p.init,
            relocs,
            heap_size: p.heap_size,
        };
        proof {
            assert(mc@ =~= machine_code(*p, *rt));
        }
        Ok(mc)
    }
}

impl Backend {
    /// Serializes `mc`.
    pub fn encode_object(&self, mc: &MachineCode) -> (r: Result<Vec<u8>, TargetError>)
        ensures
            r matches Ok(v) && v@ == encoded(mc@),
    {
        Ok(encode(mc))
    }

    /// Reads back a serialized object.
    pub fn decode_object(&self, bytes: &[u8]) -> (r: Result<MachineCode, TargetError>)
        ensures
            match decoded(bytes@) {
                Ok(want) => r matches Ok(mc) && mc@ == want,
                Err(m) => r matches Err(TargetError::BadObject(e)) && e@ == m,
            },
    {
        match decode(bytes) {
            Ok(mc) => Ok(mc),
            Err(e) => Err(TargetError::BadObject(e)),
        }
    }
}

} // verus!
