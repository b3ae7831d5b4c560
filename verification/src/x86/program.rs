//! How the machine code of a program hangs together: its functions and the
//! runtime routines in the code, its tables and fields in the data, and the
//! sites that refer to them.
use crate::ir::Program;
use crate::target::{McView, Reloc, RelocKind, Section, Sym};
use crate::x86::emit::{extends, CallTarget, Emit};
use crate::x86::encode_x64::{
    call_relocs, code_with_helpers, context_of, data_size, exc_offset, exc_relocs, functions_code,
    helper_reloc, helper_start, helper_used, lemma_helpers_behind, lemma_slots_grow, machine_code,
    program_encodable, program_uses_exc, relocs_of, row_relocs, snippet, static_offset,
    vtable_offset, vtable_relocs,
};
use crate::x86::executable::code_place;
use crate::x86::function::function_code;
use crate::x86::runtime::Runtime;
use crate::x86::windows::{
    function_addresses, functions_count, functions_start_inside, lemma_function_appends,
};
use vstd::prelude::*;

verus! {

// ---- code

proof fn lemma_functions_grow(p: Program, rt: Runtime, j: int, n: int)
    requires
        program_encodable(p, rt),
        0 <= j <= n <= p.functions@.len(),
        functions_code(p, n).0.code.len() <= usize::MAX,
    ensures
        extends(functions_code(p, j).0.code, functions_code(p, n).0.code),
    decreases n,
{
    if j < n {
        let s = functions_code(p, n - 1).0;
        lemma_function_appends(s, context_of(p), program_uses_exc(p), p.functions@[n - 1]);
        lemma_functions_grow(p, rt, j, n - 1);
        let a = functions_code(p, j).0.code;
        let b = functions_code(p, n).0.code;
        assert forall|i: int| 0 <= i < a.len() implies #[trigger] b[i] == a[i] by {
            assert(s.code[i] == a[i]);
        }
    }
}

/// The code of each function stands where its start is said to be, as it was
/// emitted there.
pub proof fn functions_stand_at_their_starts(p: Program, rt: Runtime, k: int) -> (s: Emit)
    requires
        program_encodable(p, rt),
        machine_code(p, rt).code.len() <= usize::MAX,
        0 <= k < p.functions@.len(),
    ensures
        machine_code(p, rt).fn_bases.len() == p.functions@.len(),
        s.code.len() == machine_code(p, rt).fn_bases[k],
        extends(
            function_code(s, context_of(p), p.functions@[k]).code,
            machine_code(p, rt).code,
        ),
{
    let n = p.functions@.len() as int;
    let s = functions_code(p, k).0;
    let code = machine_code(p, rt).code;
    lemma_helpers_behind(p, rt, 0, 12);
    functions_count(p, rt);
    functions_start_inside(p, rt, k);
    lemma_functions_grow(p, rt, k + 1, n);
    let f = function_code(s, context_of(p), p.functions@[k]).code;
    assert(functions_code(p, k + 1).0.code == f);
    let all = functions_code(p, n).0.code;
    assert forall|i: int| 0 <= i < f.len() implies #[trigger] code[i] == f[i] by {
        assert(all[i] == f[i]);
    }
    s
}

/// Whether a routine, where it is brought along, stands where it is said to.
pub open spec fn stands(code: Seq<u8>, at: Option<usize>, routine: Seq<u8>) -> bool {
    at matches Some(a) ==> a + routine.len() <= code.len() && forall|i: int|
        0 <= i < routine.len() ==> code[a + i] == #[trigger] routine[i]
}

proof fn lemma_stands(p: Program, rt: Runtime, k: int)
    requires
        machine_code(p, rt).code.len() <= usize::MAX,
        0 <= k < 12,
    ensures
        stands(machine_code(p, rt).code, helper_start(p, rt, k), snippet(rt, k)),
{
    reveal(helper_start);
    let code = machine_code(p, rt).code;
    let s = code_with_helpers(p, rt, k);
    let t = code_with_helpers(p, rt, k + 1);
    lemma_helpers_behind(p, rt, 0, k);
    lemma_helpers_behind(p, rt, k + 1, 12);
    if helper_used(s.uses, program_uses_exc(p), k) {
        let r = snippet(rt, k);
        let a = s.code.len() as int;
        assert(t.code == s.code + r);
        assert forall|i: int| 0 <= i < r.len() implies code[a + i] == #[trigger] r[i] by {
            assert(t.code[a + i] == r[i]);
        }
    }
}

/// Every routine that is brought along stands in the code where its start is
/// said to be.
pub proof fn routines_stand_at_their_starts(p: Program, rt: Runtime)
    requires
        machine_code(p, rt).code.len() <= usize::MAX,
    ensures
        ({
            let mc = machine_code(p, rt);
            &&& stands(mc.code, mc.helper_itoa, rt.itoa@)
            &&& stands(mc.code, mc.helper_itoa_err, rt.itoa_err@)
            &&& stands(mc.code, mc.helper_scan_int, rt.scan_int@)
            &&& stands(mc.code, mc.helper_retain, rt.retain@)
            &&& stands(mc.code, mc.helper_release, rt.release@)
            &&& stands(mc.code, mc.helper_alloc, rt.alloc_revised@)
            &&& stands(mc.code, mc.helper_exc_enter, rt.exc_enter@)
            &&& stands(mc.code, mc.helper_exc_pop, rt.exc_pop@)
            &&& stands(mc.code, mc.helper_exc_load, rt.exc_load@)
            &&& stands(mc.code, mc.helper_exc_clear, rt.exc_clear@)
            &&& stands(mc.code, mc.helper_exc_throw, rt.exc_throw@)
            &&& stands(mc.code, mc.helper_exc_rethrow, rt.exc_rethrow@)
        }),
{
    lemma_stands(p, rt, 0);
    lemma_stands(p, rt, 1);
    lemma_stands(p, rt, 2);
    lemma_stands(p, rt, 3);
    lemma_stands(p, rt, 4);
    lemma_stands(p, rt, 5);
    lemma_stands(p, rt, 6);
    lemma_stands(p, rt, 7);
    lemma_stands(p, rt, 8);
    lemma_stands(p, rt, 9);
    lemma_stands(p, rt, 10);
    lemma_stands(p, rt, 11);
}

/// The place in the code that a call is to reach.
pub open spec fn reached(mc: McView, t: CallTarget) -> Option<usize> {
    match t {
        CallTarget::Fn(i) => if i < mc.fn_bases.len() {
            Some(mc.fn_bases[i as int])
        } else {
            None
        },
        CallTarget::HelperItoa => mc.helper_itoa,
        CallTarget::HelperItoaErr => mc.helper_itoa_err,
        CallTarget::HelperScanInt => mc.helper_scan_int,
        CallTarget::HelperRetain => mc.helper_retain,
        CallTarget::HelperRelease => mc.helper_release,
        CallTarget::HelperAlloc => mc.helper_alloc,
        CallTarget::HelperExcEnter => mc.helper_exc_enter,
        CallTarget::HelperExcPop => mc.helper_exc_pop,
        CallTarget::HelperExcThrow => mc.helper_exc_throw,
        CallTarget::HelperExcRethrow => mc.helper_exc_rethrow,
        CallTarget::HelperExcLoad => mc.helper_exc_load,
        CallTarget::HelperExcClear => mc.helper_exc_clear,
    }
}

/// Every call site that emission records is relocated, and by a symbol that
/// names the place which the call is to reach.
pub proof fn call_sites_are_relocated(p: Program, rt: Runtime, j: int) -> (k: int)
    requires
        0 <= j < functions_code(p, p.functions@.len() as int).0.calls.len(),
    ensures
        ({
            let mc = machine_code(p, rt);
            let (site, target) = functions_code(p, p.functions@.len() as int).0.calls[j];
            &&& 0 <= k < mc.relocs.len()
            &&& mc.relocs[k].kind == RelocKind::Rel32Call
            &&& mc.relocs[k].section == Section::Code
            &&& mc.relocs[k].site == site
            &&& code_place(mc, mc.relocs[k].sym) == reached(mc, target)
        }),
{
    let s = functions_code(p, p.functions@.len() as int).0;
    let k = s.relocs.len() + j;
    lemma_parts(p, rt, j);
    k
}

proof fn lemma_parts(p: Program, rt: Runtime, j: int)
    requires
        0 <= j < functions_code(p, p.functions@.len() as int).0.calls.len(),
    ensures
        ({
            let s = functions_code(p, p.functions@.len() as int).0;
            let k = s.relocs.len() + j;
            &&& k < relocs_of(p, rt).len()
            &&& relocs_of(p, rt)[k] == call_relocs(s.calls)[j]
        }),
{
    let s = functions_code(p, p.functions@.len() as int).0;
    let a = s.relocs + call_relocs(s.calls);
    let b = a + vtable_relocs(p, p.vtables@.len() as int);
    let k = (s.relocs.len() + j) as int;
    assert(a[k] == call_relocs(s.calls)[j]);
    assert(b[k] == a[k]);
    let h = helper_reloc(p, rt, 5, rt.alloc_revised_heapbase_offset, Sym::HeapBase);
    let g = helper_reloc(p, rt, 4, rt.release_heapbase_offset, Sym::HeapBase);
    assert((b + h)[k] == b[k]);
    assert((b + h + g)[k] == (b + h)[k]);
    assert(relocs_of(p, rt) == b + h + g + exc_relocs(p, rt, 12));
}

// ---- tables

/// Whether `rs` holds a site at `site` of the data that takes the address of
/// function `f`.
pub open spec fn takes_function(rs: Seq<Reloc>, site: int, f: usize) -> bool {
    exists|k: int|
        0 <= k < rs.len() && (#[trigger] rs[k]).kind == RelocKind::Abs64 && rs[k].section
            == Section::Data && rs[k].site == site && rs[k].sym == Sym::Fn(f)
}

proof fn lemma_row(off: int, row: Seq<usize>, n: int, j: int)
    requires
        0 <= j < n <= row.len(),
        0 <= off,
        off + 8 * n <= usize::MAX,
        row[j] != usize::MAX,
    ensures
        takes_function(row_relocs(off, row, n), off + 8 * j, row[j]),
    decreases n,
{
    let rs = row_relocs(off, row, n);
    if j == n - 1 {
        let k = rs.len() - 1;
        assert(rs[k].site == off + 8 * j && rs[k].sym == Sym::Fn(row[j]));
    } else {
        lemma_row(off, row, n - 1, j);
        let before = row_relocs(off, row, n - 1);
        let k = choose|k: int|
            0 <= k < before.len() && (#[trigger] before[k]).kind == RelocKind::Abs64
                && before[k].section == Section::Data && before[k].site == off + 8 * j
                && before[k].sym == Sym::Fn(row[j]);
        assert(rs[k] == before[k]);
    }
}

/// A site among those of a row is that of one of its slots.
proof fn lemma_row_only(off: int, row: Seq<usize>, n: int, k: int) -> (j: int)
    requires
        0 <= n <= row.len(),
        0 <= off,
        off + 8 * n <= usize::MAX,
        0 <= k < row_relocs(off, row, n).len(),
    ensures
        0 <= j < n,
        row[j] != usize::MAX,
        row_relocs(off, row, n)[k] == (Reloc {
            kind: RelocKind::Abs64,
            section: Section::Data,
            site: (off + 8 * j) as usize,
            sym: Sym::Fn(row[j]),
        }),
    decreases n,
{
    if row[n - 1] != usize::MAX && k == row_relocs(off, row, n).len() - 1 {
        n - 1
    } else {
        lemma_row_only(off, row, n - 1, k)
    }
}

proof fn lemma_offsets(p: Program, rt: Runtime, r: int)
    requires
        program_encodable(p, rt),
        0 <= r < p.vtables@.len(),
    ensures
        p.strings@.len() <= vtable_offset(p, r),
        vtable_offset(p, r) + 8 * p.vtables@[r].1@.len() == vtable_offset(p, r + 1),
        vtable_offset(p, r + 1) <= static_offset(p, 0),
        static_offset(p, 0) <= data_size(p, rt),
        data_size(p, rt) <= usize::MAX,
{
    lemma_slots_grow(p, 0, r);
    lemma_slots_grow(p, r + 1, p.vtables@.len() as int);
}

proof fn lemma_tables(p: Program, rt: Runtime, n: int, r: int, j: int)
    requires
        program_encodable(p, rt),
        0 <= r < n <= p.vtables@.len(),
        0 <= j < p.vtables@[r].1@.len(),
        p.vtables@[r].1@[j] != usize::MAX,
    ensures
        takes_function(vtable_relocs(p, n), vtable_offset(p, r) + 8 * j, p.vtables@[r].1@[j]),
    decreases n,
{
    let rs = vtable_relocs(p, n);
    let row = p.vtables@[n - 1].1@;
    let before = vtable_relocs(p, n - 1);
    let last = row_relocs(vtable_offset(p, n - 1), row, row.len() as int);
    let f = p.vtables@[r].1@[j];
    let site = vtable_offset(p, r) + 8 * j;
    lemma_offsets(p, rt, r);
    if r == n - 1 {
        lemma_row(vtable_offset(p, r), row, row.len() as int, j);
        let k = choose|k: int|
            0 <= k < last.len() && (#[trigger] last[k]).kind == RelocKind::Abs64 && last[k].section
                == Section::Data && last[k].site == site && last[k].sym == Sym::Fn(f);
        assert(rs[before.len() + k] == last[k]);
    } else {
        lemma_tables(p, rt, n - 1, r, j);
        let k = choose|k: int|
            0 <= k < before.len() && (#[trigger] before[k]).kind == RelocKind::Abs64
                && before[k].section == Section::Data && before[k].site == site && before[k].sym
                == Sym::Fn(f);
        assert(rs[k] == before[k]);
    }
}

proof fn lemma_part_of(p: Program, rt: Runtime, k: int)
    requires
        0 <= k < vtable_relocs(p, p.vtables@.len() as int).len(),
    ensures
        ({
            let s = functions_code(p, p.functions@.len() as int).0;
            let i = s.relocs.len() + s.calls.len() + k;
            &&& i < relocs_of(p, rt).len()
            &&& relocs_of(p, rt)[i] == vtable_relocs(p, p.vtables@.len() as int)[k]
        }),
{
    let s = functions_code(p, p.functions@.len() as int).0;
    let a = s.relocs + call_relocs(s.calls);
    let v = vtable_relocs(p, p.vtables@.len() as int);
    let b = a + v;
    let i = (s.relocs.len() + s.calls.len() + k) as int;
    assert(b[i] == v[k]);
    let h = helper_reloc(p, rt, 5, rt.alloc_revised_heapbase_offset, Sym::HeapBase);
    let g = helper_reloc(p, rt, 4, rt.release_heapbase_offset, Sym::HeapBase);
    assert((b + h)[i] == b[i]);
    assert((b + h + g)[i] == (b + h)[i]);
    assert(relocs_of(p, rt) == b + h + g + exc_relocs(p, rt, 12));
}

/// The slot of a table takes the address of the function that the program has
/// for it: slot `j` is the word `j` behind the start of its row.
pub proof fn slots_take_their_functions(p: Program, rt: Runtime, r: int, j: int)
    requires
        program_encodable(p, rt),
        0 <= r < p.vtables@.len(),
        0 <= j < p.vtables@[r].1@.len(),
        p.vtables@[r].1@[j] != usize::MAX,
    ensures
        takes_function(
            machine_code(p, rt).relocs,
            machine_code(p, rt).vtable_offsets[r] + 8 * j,
            p.vtables@[r].1@[j],
        ),
{
    let n = p.vtables@.len() as int;
    let rs = vtable_relocs(p, n);
    let all = machine_code(p, rt).relocs;
    let site = vtable_offset(p, r) + 8 * j;
    let f = p.vtables@[r].1@[j];
    lemma_offsets(p, rt, r);
    lemma_tables(p, rt, n, r, j);
    let k = choose|k: int|
        0 <= k < rs.len() && (#[trigger] rs[k]).kind == RelocKind::Abs64 && rs[k].section
            == Section::Data && rs[k].site == site && rs[k].sym == Sym::Fn(f);
    lemma_part_of(p, rt, k);
    let s = functions_code(p, p.functions@.len() as int).0;
    assert(all[(s.relocs.len() + s.calls.len() + k) as int] == rs[k]);
}

proof fn lemma_tables_only(p: Program, rt: Runtime, n: int, k: int) -> (slot: (int, int))
    requires
        program_encodable(p, rt),
        0 <= n <= p.vtables@.len(),
        0 <= k < vtable_relocs(p, n).len(),
    ensures
        0 <= slot.0 < n,
        0 <= slot.1 < p.vtables@[slot.0].1@.len(),
        p.vtables@[slot.0].1@[slot.1] != usize::MAX,
        vtable_relocs(p, n)[k] == (Reloc {
            kind: RelocKind::Abs64,
            section: Section::Data,
            site: (vtable_offset(p, slot.0) + 8 * slot.1) as usize,
            sym: Sym::Fn(p.vtables@[slot.0].1@[slot.1]),
        }),
    decreases n,
{
    let row = p.vtables@[n - 1].1@;
    let before = vtable_relocs(p, n - 1);
    lemma_offsets(p, rt, n - 1);
    if k < before.len() {
        lemma_tables_only(p, rt, n - 1, k)
    } else {
        let j = lemma_row_only(
            vtable_offset(p, n - 1),
            row,
            row.len() as int,
            k - before.len(),
        );
        (n - 1, j)
    }
}

proof fn lemma_exc_in_code(p: Program, rt: Runtime, n: int)
    ensures
        forall|i: int|
            0 <= i < exc_relocs(p, rt, n).len() ==> (#[trigger] exc_relocs(p, rt, n)[i]).section
                == Section::Code,
    decreases n,
{
    if n > 6 {
        lemma_exc_in_code(p, rt, n - 1);
    }
}

/// Nothing in the data is relocated but the slots of tables, each by the
/// function that the program has for it; a slot without one stays zero.
pub proof fn only_slots_are_relocated(p: Program, rt: Runtime, k: int) -> (slot: (int, int))
    requires
        program_encodable(p, rt),
        machine_code(p, rt).code.len() <= usize::MAX,
        0 <= k < machine_code(p, rt).relocs.len(),
        machine_code(p, rt).relocs[k].section == Section::Data,
    ensures
        0 <= slot.0 < p.vtables@.len(),
        0 <= slot.1 < p.vtables@[slot.0].1@.len(),
        p.vtables@[slot.0].1@[slot.1] != usize::MAX,
        machine_code(p, rt).relocs[k].kind == RelocKind::Abs64,
        machine_code(p, rt).relocs[k].site == machine_code(p, rt).vtable_offsets[slot.0] + 8
            * slot.1,
        machine_code(p, rt).relocs[k].sym == Sym::Fn(p.vtables@[slot.0].1@[slot.1]),
{
    let s = functions_code(p, p.functions@.len() as int).0;
    let v = vtable_relocs(p, p.vtables@.len() as int);
    let front = s.relocs + call_relocs(s.calls);
    let h = helper_reloc(p, rt, 5, rt.alloc_revised_heapbase_offset, Sym::HeapBase);
    let g = helper_reloc(p, rt, 4, rt.release_heapbase_offset, Sym::HeapBase);
    let x = exc_relocs(p, rt, 12);
    let all = relocs_of(p, rt);
    assert(all == front + v + h + g + x);
    lemma_exc_in_code(p, rt, 12);
    let n = front.len() as int;
    if k < s.relocs.len() {
        function_addresses(p, rt, k);
        assert(all[k] == s.relocs[k]);
    } else if k < n {
        assert(all[k] == call_relocs(s.calls)[k - s.relocs.len()]);
    } else if k < n + v.len() {
        assert(all[k] == v[k - n]);
    } else if k < n + v.len() + h.len() {
        assert(all[k] == h[k - n - v.len()]);
    } else if k < n + v.len() + h.len() + g.len() {
        assert(all[k] == g[k - n - v.len() - h.len()]);
    } else {
        assert(all[k] == x[k - n - v.len() - h.len() - g.len()]);
    }
    let slot = lemma_tables_only(p, rt, p.vtables@.len() as int, k - n);
    lemma_offsets(p, rt, slot.0);
    slot
}

// ---- data

/// The data holds the strings, the table rows, the static fields, the
/// exception state and the stack pointer of process start, each behind the
/// one before, none overlapping another, and all of it zero but the strings.
pub proof fn data_is_laid_out(p: Program, rt: Runtime)
    requires
        program_encodable(p, rt),
    ensures
        ({
            let mc = machine_code(p, rt);
            let rows = p.vtables@;
            let fields = p.statics@;
            &&& mc.vtable_offsets.len() == rows.len()
            &&& mc.static_offsets.len() == fields.len()
            &&& forall|i: int| 0 <= i < p.strings@.len() ==> #[trigger] mc.data[i] == p.strings@[i]
            &&& forall|i: int| p.strings@.len() <= i < mc.data.len() ==> #[trigger] mc.data[i] == 0
            &&& forall|r: int|
                0 <= r < rows.len() ==> p.strings@.len() <= #[trigger] mc.vtable_offsets[r]
                    && mc.vtable_offsets[r] + 8 * rows[r].1@.len() <= mc.data.len()
            &&& forall|q: int, r: int|
                0 <= q < r < rows.len() ==> #[trigger] mc.vtable_offsets[q] + 8 * rows[q].1@.len()
                    <= #[trigger] mc.vtable_offsets[r]
            &&& forall|r: int, i: int|
                0 <= r < rows.len() && 0 <= i < fields.len() ==> #[trigger] mc.vtable_offsets[r]
                    + 8 * rows[r].1@.len() <= #[trigger] mc.static_offsets[i]
            &&& forall|i: int|
                0 <= i < fields.len() ==> p.strings@.len() <= #[trigger] mc.static_offsets[i]
                    && mc.static_offsets[i] + 8 <= mc.data.len()
            &&& forall|i: int, j: int|
                0 <= i < j < fields.len() ==> #[trigger] mc.static_offsets[i] + 8
                    <= #[trigger] mc.static_offsets[j]
            &&& mc.exc_state_offset matches Some(e) ==> {
                &&& e + rt.exc_state_size <= mc.data.len()
                &&& p.strings@.len() <= e
                &&& forall|i: int|
                    0 <= i < fields.len() ==> #[trigger] mc.static_offsets[i] + 8 <= e
                &&& forall|r: int|
                    0 <= r < rows.len() ==> #[trigger] mc.vtable_offsets[r] + 8 * rows[r].1@.len()
                        <= e
            }
            &&& mc.helper_argv matches Some(a) ==> {
                &&& a + 8 == mc.data.len()
                &&& p.strings@.len() <= a
                &&& mc.exc_state_offset matches Some(e) ==> e + rt.exc_state_size <= a
                &&& forall|i: int|
                    0 <= i < fields.len() ==> #[trigger] mc.static_offsets[i] + 8 <= a
                &&& forall|r: int|
                    0 <= r < rows.len() ==> #[trigger] mc.vtable_offsets[r] + 8 * rows[r].1@.len()
                        <= a
            }
        }),
{
    let mc = machine_code(p, rt);
    let rows = p.vtables@;
    let n = rows.len() as int;
    lemma_slots_grow(p, 0, n);
    assert forall|r: int| 0 <= r < n implies p.strings@.len() <= #[trigger] mc.vtable_offsets[r]
        && mc.vtable_offsets[r] + 8 * rows[r].1@.len() <= static_offset(p, 0) by {
        lemma_offsets(p, rt, r);
    }
    assert forall|q: int, r: int| 0 <= q < r < n implies #[trigger] mc.vtable_offsets[q] + 8
        * rows[q].1@.len() <= #[trigger] mc.vtable_offsets[r] by {
        lemma_offsets(p, rt, q);
        lemma_offsets(p, rt, r);
        lemma_slots_grow(p, q + 1, r);
    }
}

// ---- sites in the routines

proof fn lemma_tail(p: Program, rt: Runtime)
    ensures
        ({
            let s = functions_code(p, p.functions@.len() as int).0;
            let front = s.relocs + call_relocs(s.calls) + vtable_relocs(
                p,
                p.vtables@.len() as int,
            );
            let h = helper_reloc(p, rt, 5, rt.alloc_revised_heapbase_offset, Sym::HeapBase);
            let g = helper_reloc(p, rt, 4, rt.release_heapbase_offset, Sym::HeapBase);
            let all = relocs_of(p, rt);
            &&& forall|i: int| 0 <= i < h.len() ==> all.contains(#[trigger] h[i])
            &&& forall|i: int| 0 <= i < g.len() ==> all.contains(#[trigger] g[i])
            &&& forall|i: int|
                0 <= i < exc_relocs(p, rt, 12).len() ==> all.contains(
                    #[trigger] exc_relocs(p, rt, 12)[i],
                )
        }),
{
    let s = functions_code(p, p.functions@.len() as int).0;
    let front = s.relocs + call_relocs(s.calls) + vtable_relocs(p, p.vtables@.len() as int);
    let h = helper_reloc(p, rt, 5, rt.alloc_revised_heapbase_offset, Sym::HeapBase);
    let g = helper_reloc(p, rt, 4, rt.release_heapbase_offset, Sym::HeapBase);
    let x = exc_relocs(p, rt, 12);
    let all = relocs_of(p, rt);
    assert(all == front + h + g + x);
    assert forall|i: int| 0 <= i < h.len() implies all.contains(#[trigger] h[i]) by {
        assert(all[front.len() + i] == h[i]);
    }
    assert forall|i: int| 0 <= i < g.len() implies all.contains(#[trigger] g[i]) by {
        assert(all[front.len() + h.len() + i] == g[i]);
    }
    assert forall|i: int| 0 <= i < x.len() implies all.contains(#[trigger] x[i]) by {
        assert(all[front.len() + h.len() + g.len() + i] == x[i]);
    }
}

/// Whether, where a routine is brought along, the site `off` bytes into it
/// takes the address of `sym`.
pub open spec fn site_takes(mc: McView, at: Option<usize>, off: usize, sym: Sym) -> bool {
    at matches Some(a) ==> mc.relocs.contains(
        Reloc {
            kind: RelocKind::Abs64,
            section: Section::Code,
            site: (a + off) as usize,
            sym,
        },
    )
}

proof fn lemma_exc_site(p: Program, rt: Runtime, n: int, k: int)
    requires
        6 <= k < n <= 12,
    ensures
        helper_start(p, rt, k) matches Some(a) ==> exc_relocs(p, rt, n).contains(
            Reloc {
                kind: RelocKind::Abs64,
                section: Section::Code,
                site: (a + rt.exc_base_offset) as usize,
                sym: Sym::ExcState(exc_offset(p) as usize),
            },
        ),
    decreases n,
{
    if let Some(a) = helper_start(p, rt, k) {
        let sym = Sym::ExcState(exc_offset(p) as usize);
        let want = Reloc {
            kind: RelocKind::Abs64,
            section: Section::Code,
            site: (a + rt.exc_base_offset) as usize,
            sym,
        };
        let before = exc_relocs(p, rt, n - 1);
        let last = helper_reloc(p, rt, n - 1, rt.exc_base_offset, sym);
        let rs = exc_relocs(p, rt, n);
        assert(rs == before + last);
        if k == n - 1 {
            assert(rs[before.len() as int] == last[0]);
            assert(last[0] == want);
        } else {
            lemma_exc_site(p, rt, n - 1, k);
            let i = choose|i: int| 0 <= i < before.len() && before[i] == want;
            assert(rs[i] == want);
        }
    }
}

/// The routines that work on the heap take its base, and those of the
/// exception runtime its state, each at the place that it has for it.
pub proof fn routines_take_their_state(p: Program, rt: Runtime)
    ensures
        ({
            let mc = machine_code(p, rt);
            &&& site_takes(
                mc,
                mc.helper_alloc,
                rt.alloc_revised_heapbase_offset,
                Sym::HeapBase,
            )
            &&& site_takes(mc, mc.helper_release, rt.release_heapbase_offset, Sym::HeapBase)
            &&& mc.exc_state_offset matches Some(e) ==> {
                &&& site_takes(mc, mc.helper_exc_enter, rt.exc_base_offset, Sym::ExcState(e))
                &&& site_takes(mc, mc.helper_exc_pop, rt.exc_base_offset, Sym::ExcState(e))
                &&& site_takes(mc, mc.helper_exc_load, rt.exc_base_offset, Sym::ExcState(e))
                &&& site_takes(mc, mc.helper_exc_clear, rt.exc_base_offset, Sym::ExcState(e))
                &&& site_takes(mc, mc.helper_exc_throw, rt.exc_base_offset, Sym::ExcState(e))
                &&& site_takes(mc, mc.helper_exc_rethrow, rt.exc_base_offset, Sym::ExcState(e))
            }
        }),
{
    let h = helper_reloc(p, rt, 5, rt.alloc_revised_heapbase_offset, Sym::HeapBase);
    let g = helper_reloc(p, rt, 4, rt.release_heapbase_offset, Sym::HeapBase);
    lemma_tail(p, rt);
    if let Some(a) = helper_start(p, rt, 5) {
        assert(relocs_of(p, rt).contains(h[0]));
    }
    if let Some(a) = helper_start(p, rt, 4) {
        assert(relocs_of(p, rt).contains(g[0]));
    }
    lemma_exc_taken(p, rt, 6);
    lemma_exc_taken(p, rt, 7);
    lemma_exc_taken(p, rt, 8);
    lemma_exc_taken(p, rt, 9);
    lemma_exc_taken(p, rt, 10);
    lemma_exc_taken(p, rt, 11);
}

proof fn lemma_exc_taken(p: Program, rt: Runtime, k: int)
    requires
        6 <= k < 12,
    ensures
        site_takes(
            machine_code(p, rt),
            helper_start(p, rt, k),
            rt.exc_base_offset,
            Sym::ExcState(exc_offset(p) as usize),
        ),
{
    lemma_tail(p, rt);
    lemma_exc_site(p, rt, 12, k);
    if let Some(a) = helper_start(p, rt, k) {
        let rs = exc_relocs(p, rt, 12);
        let want = Reloc {
            kind: RelocKind::Abs64,
            section: Section::Code,
            site: (a + rt.exc_base_offset) as usize,
            sym: Sym::ExcState(exc_offset(p) as usize),
        };
        let i = choose|i: int| 0 <= i < rs.len() && rs[i] == want;
        assert(relocs_of(p, rt).contains(rs[i]));
    }
}

} // verus!
