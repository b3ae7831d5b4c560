//! What holds from one stage to the next: machine code that was lowered can
//! be serialized and written.
use crate::container::ContainerFormat;
use crate::ir::Program;
use crate::mc_serialize::{decoded, decoding_undoes_encoding, encoded, serializable};
use crate::target::{McView, Sym};
use crate::x86::elf;
use crate::x86::encode_x64::{
    context_of, data_size, exc_offset, functions_code, lemma_helper_inside, lemma_slots_grow,
    machine_code, program_encodable, program_uses_argv,
};
use crate::x86::runtime::Runtime;
use crate::x86::shlib;
use crate::x86::windows::{
    addresses_exist, function_addresses, functions_count, functions_start_inside, lemma_origin,
    relocations_fit, taken_by_function,
};
use vstd::prelude::*;

verus! {

/// Whether what `mc` refers to by number exists: functions, and places in
/// the data.
pub open spec fn linked(mc: McView) -> bool {
    forall|k: int|
        0 <= k < mc.relocs.len() ==> match (#[trigger] mc.relocs[k]).sym {
            Sym::Fn(i) => i < mc.fn_bases.len(),
            Sym::String(off) => off <= mc.data.len(),
            _ => true,
        }
}

/// Whether `mc` takes no address of an import.
pub open spec fn without_imports(mc: McView) -> bool {
    forall|k: int| 0 <= k < mc.relocs.len() ==> !((#[trigger] mc.relocs[k]).sym is Import)
}

/// Vtable rows and static fields lie in the data.
proof fn lemma_offsets(p: Program, rt: Runtime)
    requires
        program_encodable(p, rt),
    ensures
        machine_code(p, rt).data.len() == data_size(p, rt),
        0 <= exc_offset(p) <= data_size(p, rt),
        forall|k: int|
            0 <= k < p.vtables@.len() ==> #[trigger] machine_code(p, rt).vtable_offsets[k]
                <= data_size(p, rt),
        forall|k: int|
            0 <= k < p.statics@.len() ==> #[trigger] machine_code(p, rt).static_offsets[k]
                <= data_size(p, rt),
{
    let n = p.vtables@.len() as int;
    lemma_slots_grow(p, 0, n);
    assert forall|k: int| 0 <= k < n implies #[trigger] machine_code(p, rt).vtable_offsets[k]
        <= data_size(p, rt) by {
        lemma_slots_grow(p, k, n);
        lemma_slots_grow(p, 0, k);
    }
}

/// The helpers start within the code.
proof fn lemma_helpers_start(p: Program, rt: Runtime)
    requires
        machine_code(p, rt).code.len() <= usize::MAX,
    ensures
        ({
            let mc = machine_code(p, rt);
            let n = mc.code.len();
            &&& elf::or_zero(mc.helper_itoa) <= n
            &&& elf::or_zero(mc.helper_itoa_err) <= n
            &&& elf::or_zero(mc.helper_scan_int) <= n
            &&& elf::or_zero(mc.helper_retain) <= n
            &&& elf::or_zero(mc.helper_release) <= n
            &&& elf::or_zero(mc.helper_alloc) <= n
            &&& elf::or_zero(mc.helper_exc_enter) <= n
            &&& elf::or_zero(mc.helper_exc_pop) <= n
            &&& elf::or_zero(mc.helper_exc_load) <= n
            &&& elf::or_zero(mc.helper_exc_clear) <= n
            &&& elf::or_zero(mc.helper_exc_throw) <= n
            &&& elf::or_zero(mc.helper_exc_rethrow) <= n
        }),
{
    lemma_helper_inside(p, rt, 0);
    lemma_helper_inside(p, rt, 1);
    lemma_helper_inside(p, rt, 2);
    lemma_helper_inside(p, rt, 3);
    lemma_helper_inside(p, rt, 4);
    lemma_helper_inside(p, rt, 5);
    lemma_helper_inside(p, rt, 6);
    lemma_helper_inside(p, rt, 7);
    lemma_helper_inside(p, rt, 8);
    lemma_helper_inside(p, rt, 9);
    lemma_helper_inside(p, rt, 10);
    lemma_helper_inside(p, rt, 11);
}

/// The places in the data that relocation `k` can name lie in the data.
proof fn lemma_place(p: Program, rt: Runtime, k: int)
    requires
        program_encodable(p, rt),
        machine_code(p, rt).code.len() <= usize::MAX,
        0 <= k < machine_code(p, rt).relocs.len(),
    ensures
        match machine_code(p, rt).relocs[k].sym {
            Sym::VtableOff(off) => off <= machine_code(p, rt).data.len(),
            Sym::ExcState(off) => off <= machine_code(p, rt).data.len(),
            Sym::Static(i) => i < p.statics@.len() || p.statics@.len() == 0,
            _ => true,
        },
{
    let mc = machine_code(p, rt);
    let r = mc.relocs[k];
    let s = functions_code(p, p.functions@.len() as int).0;
    lemma_offsets(p, rt);
    lemma_origin(p, rt, k);
    if taken_by_function(r) {
        addresses_exist(p, rt, k);
        if let Sym::VtableOff(off) = r.sym {
            let j = choose|j: int|
                0 <= j < context_of(p).vtable_offsets.len() && context_of(p).vtable_offsets[j] == off;
            assert(mc.vtable_offsets[j] == off);
        }
    } else if k < s.relocs.len() {
        function_addresses(p, rt, k);
    }
}

/// Lowered machine code that is linked and takes nothing from outside can be
/// written as an executable, as far as its size allows.
pub proof fn lowered_code_can_be_written(
    p: Program,
    rt: Runtime,
    format: ContainerFormat,
    entry_preamble: bool,
)
    requires
        program_encodable(p, rt),
        linked(machine_code(p, rt)),
        without_imports(machine_code(p, rt)),
        entry_preamble ==> format.preamble_len >= 10,
        ({
            let l = elf::layout_of(machine_code(p, rt), format, entry_preamble);
            l.total() <= usize::MAX && l.heap_vaddr <= u64::MAX && l.heap_len <= u64::MAX
        }),
    ensures
        elf::image_ready(machine_code(p, rt), format, entry_preamble),
{
    let mc = machine_code(p, rt);
    let l = elf::layout_of(mc, format, entry_preamble);
    elf::lemma_layout(mc, format, entry_preamble);
    relocations_fit(p, rt);
    lemma_offsets(p, rt);
    lemma_helpers_start(p, rt);
    assert forall|k: int| 0 <= k < mc.relocs.len() implies elf::reloc_ready(
        mc,
        l,
        #[trigger] mc.relocs[k],
    ) by {
        let r = mc.relocs[k];
        lemma_place(p, rt, k);
        if let Sym::Fn(i) = r.sym {
            functions_start_inside(p, rt, i as int);
        }
        assert(elf::address(mc, l, r.sym) <= u64::MAX) by {
            reveal(elf::address);
        }
    }
}

/// Lowered machine code that is linked can be written as a shared object, as
/// far as its size allows; the addresses of imports are left open.
pub proof fn lowered_code_can_be_shared(p: Program, rt: Runtime)
    requires
        program_encodable(p, rt),
        linked(machine_code(p, rt)),
        forall|i: int|
            0 <= i < p.exports@.len() ==> (#[trigger] p.exports@[i]).1 < p.functions@.len(),
        ({
            let l = shlib::layout_of(machine_code(p, rt));
            l.image_len <= usize::MAX && l.heap_memsz <= usize::MAX
        }),
        shlib::symbols(machine_code(p, rt)) < u32::MAX,
    ensures
        shlib::shared_ready(machine_code(p, rt)),
{
    let mc = machine_code(p, rt);
    let l = shlib::layout_of(mc);
    shlib::lemma_layout(mc);
    relocations_fit(p, rt);
    lemma_offsets(p, rt);
    assert forall|i: int| 0 <= i < mc.fn_bases.len() implies #[trigger] mc.fn_bases[i]
        <= mc.code.len() by {
        functions_start_inside(p, rt, i);
    }
    assert(mc.fn_bases.len() == p.functions@.len()) by {
        functions_count(p, rt);
    }
    assert forall|i: int| 0 <= i < mc.exports.len() implies (#[trigger] mc.exports[i]).1
        < mc.fn_bases.len() && shlib::body_vaddr(mc, i) <= usize::MAX by {
        assert(p.exports@[i].1 < p.functions@.len());
        assert(mc.fn_bases[mc.exports[i].1 as int] <= mc.code.len());
    }
    assert forall|k: int| 0 <= k < mc.relocs.len() implies shlib::reloc_ready(
        mc,
        l,
        #[trigger] mc.relocs[k],
    ) by {
        lemma_place(p, rt, k);
        lemma_origin(p, rt, k);
        let s = functions_code(p, p.functions@.len() as int).0;
        if k < s.relocs.len() {
            function_addresses(p, rt, k);
        }
    }
}

/// What lowering serializes is decoded to the very machine code.
pub proof fn lowered_code_survives(p: Program, rt: Runtime)
    requires
        serializable(machine_code(p, rt)),
    ensures
        decoded(encoded(machine_code(p, rt))) == Ok::<McView, Seq<char>>(machine_code(p, rt)),
{
    decoding_undoes_encoding(machine_code(p, rt));
}

/// An executable finds the stack pointer of process start where lowering
/// has put it: in the last word of the data.
pub proof fn argv_slot_is_found(
    p: Program,
    rt: Runtime,
    format: ContainerFormat,
    entry_preamble: bool,
)
    requires
        program_encodable(p, rt),
        program_uses_argv(p),
    ensures
        ({
            let mc = machine_code(p, rt);
            let l = elf::layout_of(mc, format, entry_preamble);
            &&& mc.data.len() >= 8
            &&& mc.helper_argv == Some((mc.data.len() - 8) as usize)
            &&& elf::address(mc, l, Sym::ArgvRsp) == l.data_vaddr + mc.helper_argv->0
        }),
{
    reveal(elf::address);
    lemma_offsets(p, rt);
    lemma_slots_grow(p, 0, p.vtables@.len() as int);
}

} // verus!
