//! Shared objects: images for `dlopen` that export functions, vtables and
//! static fields as symbols.
//!
//! Addresses are file offsets. The header of the tool chain lies behind the
//! ELF header:
//!
//! ```text
//! [ELF header][header][5 program headers][code][trampolines]            R+X
//! [data][.got][.rela.dyn][.dynsym][.dynstr][.hash][.dynamic]            RW
//! [object heap]                                                         RW
//! [section headers][section names]
//! ```
//!
//! The loader never writes to the code. Each absolute address in the code is
//! loaded from a slot of the table `.got` instead, and only these slots and
//! the words of the data are relocated, relative to the load address.
use crate::bytes::{
    align_u128, align_up, distance32, le16, le32, le64, lemma_align_up, lemma_assoc,
    lemma_empty_front, lemma_overlay_keeps, lemma_overlay_last, lemma_overlay_len,
    lemma_overlay_push, lemma_overlay_reads, overlay, pad_to, push_bytes, push_pad, push_u16,
    push_u32, push_u64, push_zeros, wrap32, write_at, zeros, Part,
};
use crate::container::{
    marker, ContainerFormat, JUMP_OVER_MAGIC, KIND_SHARED_LIBRARY, MAGIC,
};
use crate::target::{MachineCode, McView, Reloc, RelocKind, Section, Sym, TargetError};
use crate::x86::emit::{modrm, modrm_byte, rex, rex_byte, ARG};
use crate::x86::instrs::min;
use vstd::prelude::*;
use vstd::utf8::encode_utf8;

verus! {

pub const PAGE: usize = 0x1000;

/// File offset of the code, behind five program headers.
pub const CODE_BASE: usize = 360;

// ---- exports

/// Whether the body of export `i` takes a receiver. Where nothing says, it
/// does.
pub open spec fn takes_receiver(mc: McView, i: int) -> bool {
    if i < mc.export_takes_receiver.len() {
        mc.export_takes_receiver[i]
    } else {
        true
    }
}

/// Room for the entry of an export of `nargs` parameters.
pub open spec fn entry_size(nargs: int, receiver: bool) -> int {
    if receiver {
        34 + 6 * min(nargs, 6)
    } else {
        6
    }
}

/// Room for the entries of the first `k` exports.
pub open spec fn entries_size(mc: McView, k: int) -> int
    decreases k,
{
    if k <= 0 {
        0
    } else {
        entries_size(mc, k - 1) + entry_size(
            mc.exports[k - 1].2 as int,
            takes_receiver(mc, k - 1),
        )
    }
}

/// Moves the first `n` arguments one register on, the last one first.
pub open spec fn shift_args(n: int) -> Seq<u8>
    decreases n,
{
    if n <= 0 {
        seq![]
    } else {
        seq![
            rex(true, ARG@[n - 1] >= 8, ARG@[n] >= 8),
            0x89u8,
            modrm(3, ARG@[n - 1], ARG@[n]),
        ] + shift_args(n - 1)
    }
}

/// The entry at `at` of an export whose body is at `body`. A body with a
/// receiver gets zero for it, and its arguments behind it:
///
/// ```text
/// (shift arguments);  xor edi, edi;  call body;  ret
/// ```
///
/// One without takes its arguments as they come: `call body;  ret`.
pub open spec fn trampoline(nargs: int, at: int, body: int, receiver: bool) -> Seq<u8> {
    if receiver {
        let n = min(nargs, 5);
        shift_args(n) + seq![0x31u8, 0xFF, 0xE8] + le32(wrap32(body - (at + 3 * n + 7))) + seq![
            0xC3u8,
        ]
    } else {
        seq![0xE8u8] + le32(wrap32(body - (at + 5))) + seq![0xC3u8]
    }
}

/// Address of the body of export `i`.
pub open spec fn body_vaddr(mc: McView, i: int) -> int {
    CODE_BASE + mc.fn_bases[mc.exports[i].1 as int]
}

/// Address of the entry of export `i`.
pub open spec fn entry_vaddr(mc: McView, i: int) -> int {
    CODE_BASE + mc.code.len() + entries_size(mc, i)
}

/// The entries of the first `k` exports, each filled up to its room.
pub open spec fn trampolines(mc: McView, k: int) -> Seq<u8>
    decreases k,
{
    if k <= 0 {
        seq![]
    } else {
        pad_to(
            trampolines(mc, k - 1) + trampoline(
                mc.exports[k - 1].2 as int,
                entry_vaddr(mc, k - 1),
                body_vaddr(mc, k - 1),
                takes_receiver(mc, k - 1),
            ),
            entries_size(mc, k),
        )
    }
}

// ---- symbols

/// Number of dynamic symbols besides the null symbol: exports, vtable rows,
/// static fields.
pub open spec fn symbols(mc: McView) -> int {
    mc.exports.len() as int + mc.vtable_names.len() + mc.static_names.len()
}

/// Offset `i` of `offsets`, or 0 where there is none.
pub open spec fn offset_or_zero(offsets: Seq<usize>, i: int) -> int {
    if i < offsets.len() {
        offsets[i] as int
    } else {
        0
    }
}

/// Name of a vtable symbol.
pub open spec fn vtable_symbol(path: Seq<char>) -> Seq<char> {
    path + "::__vtable"@
}

/// Name of symbol `k`.
pub open spec fn sym_name(mc: McView, k: int) -> Seq<u8> {
    let e = mc.exports.len();
    let v = mc.vtable_names.len();
    if k < e {
        encode_utf8(mc.exports[k].0)
    } else if k < e + v {
        encode_utf8(vtable_symbol(mc.vtable_names[k - e]))
    } else {
        encode_utf8(mc.static_names[k - e - v])
    }
}

/// Offset in the data of symbol `k`, which is not an export.
pub open spec fn sym_offset(mc: McView, k: int) -> int {
    let e = mc.exports.len();
    let v = mc.vtable_names.len();
    if k < e + v {
        offset_or_zero(mc.vtable_offsets, k - e)
    } else {
        offset_or_zero(mc.static_offsets, k - e - v)
    }
}

/// The string table with the names of the first `k` symbols.
pub open spec fn dynstr(mc: McView, k: int) -> Seq<u8>
    decreases k,
{
    if k <= 0 {
        seq![0u8]
    } else {
        dynstr(mc, k - 1) + sym_name(mc, k - 1) + seq![0u8]
    }
}

/// Address of symbol `k`: an export with a receiver is its entry, another one
/// its body; the rest is data.
pub open spec fn sym_value(mc: McView, data_at: int, k: int) -> int {
    if k < mc.exports.len() {
        if takes_receiver(mc, k) {
            entry_vaddr(mc, k)
        } else {
            body_vaddr(mc, k)
        }
    } else {
        data_at + sym_offset(mc, k)
    }
}

/// The entry of symbol `k`: a global function in section 1, or a global
/// object in section 2.
pub open spec fn sym_entry(mc: McView, data_at: int, k: int) -> Seq<u8> {
    le32(wrap32(dynstr(mc, k).len() as int)) + (if k < mc.exports.len() {
        seq![0x12u8, 0u8] + le16(1)
    } else {
        seq![0x11u8, 0u8] + le16(2)
    }) + le64(sym_value(mc, data_at, k) as u64) + zeros(8)
}

/// The null symbol and the first `k` others.
pub open spec fn dynsym(mc: McView, data_at: int, k: int) -> Seq<u8>
    decreases k,
{
    if k <= 0 {
        zeros(24)
    } else {
        dynsym(mc, data_at, k - 1) + sym_entry(mc, data_at, k - 1)
    }
}

// ---- hash table

/// One step of the hash of a name: the top four of 32 bits are folded into
/// the bits 4 to 7.
pub open spec fn hash_step(h: u32, b: u8) -> u32 {
    let t = wrap32(h * 16 + b);
    ((t % 0x1000_0000) as u32) ^ ((t / 0x1000_0000 * 16) as u32)
}

/// The hash of a name.
pub open spec fn elf_hash(name: Seq<u8>) -> u32
    decreases name.len(),
{
    if name.len() == 0 {
        0
    } else {
        hash_step(elf_hash(name.drop_last()), name.last())
    }
}

/// Bucket of symbol `k` among `n`.
pub open spec fn bucket_of(mc: McView, n: int, k: int) -> int {
    elf_hash(sym_name(mc, k)) as int % n
}

/// The `n` buckets and the `n` chain links after the first `k` symbols: each
/// symbol goes to the head of the chain of its bucket. Symbols count from 1,
/// and 0 ends a chain.
pub open spec fn hash_tables(mc: McView, n: int, k: int) -> (Seq<u32>, Seq<u32>)
    decreases k,
{
    if k <= 0 {
        (Seq::new(n as nat, |i: int| 0u32), Seq::new(n as nat, |i: int| 0u32))
    } else {
        let (buckets, chains) = hash_tables(mc, n, k - 1);
        let b = bucket_of(mc, n, k - 1);
        (buckets.update(b, k as u32), chains.update(k, buckets[b]))
    }
}

/// The little-endian bytes of `xs`.
pub open spec fn le32s(xs: Seq<u32>) -> Seq<u8>
    decreases xs.len(),
{
    if xs.len() == 0 {
        seq![]
    } else {
        le32s(xs.drop_last()) + le32(xs.last())
    }
}

/// The hash table: the numbers of buckets and of symbols, the buckets, the
/// chains. There are as many buckets as symbols.
#[verifier::opaque]
pub open spec fn hash_bytes(mc: McView) -> Seq<u8> {
    let n = symbols(mc) + 1;
    let (buckets, chains) = hash_tables(mc, n, symbols(mc));
    le32(n as u32) + le32(n as u32) + le32s(buckets) + le32s(chains)
}

// ---- relocations

/// Whether `r` is an address in the code.
pub open spec fn in_code(r: Reloc) -> bool {
    r.kind == RelocKind::Abs64 && r.section == Section::Code
}

/// Whether `r` is an address in the data.
pub open spec fn in_data(r: Reloc) -> bool {
    r.kind == RelocKind::Abs64 && r.section == Section::Data
}

/// Number of addresses in the code among the first `n` relocations.
pub open spec fn code_slots(mc: McView, n: int) -> int
    decreases n,
{
    if n <= 0 {
        0
    } else {
        code_slots(mc, n - 1) + if in_code(mc.relocs[n - 1]) {
            1int
        } else {
            0
        }
    }
}

/// Number of addresses in the data among the first `n` relocations.
pub open spec fn data_slots(mc: McView, n: int) -> int
    decreases n,
{
    if n <= 0 {
        0
    } else {
        data_slots(mc, n - 1) + if in_data(mc.relocs[n - 1]) {
            1int
        } else {
            0
        }
    }
}

// ---- layout

/// Where everything goes.
pub struct Layout {
    pub rx_end: int,
    pub data_at: int,
    pub got_start: int,
    pub got_slots: int,
    pub rela_start: int,
    pub relas: int,
    pub dynsym_start: int,
    pub dynsym_size: int,
    pub dynstr_start: int,
    pub dynstr_size: int,
    pub hash_start: int,
    pub hash_size: int,
    pub dynamic_start: int,
    pub rw_end: int,
    pub heap_vaddr: int,
    pub heap_memsz: int,
    pub shoff: int,
    pub image_len: int,
}

#[verifier::opaque]
pub open spec fn layout_of(mc: McView) -> Layout {
    let n = symbols(mc);
    let rx_end = CODE_BASE + mc.code.len() + entries_size(mc, mc.exports.len() as int);
    let data_at = align_up(rx_end, PAGE as int);
    let got_slots = code_slots(mc, mc.relocs.len() as int);
    let got_start = align_up(data_at + mc.data.len(), 8);
    let rela_start = align_up(got_start + got_slots * 8, 8);
    let relas = got_slots + data_slots(mc, mc.relocs.len() as int);
    let dynsym_start = align_up(rela_start + relas * 24, 8);
    let dynsym_size = (n + 1) * 24;
    let dynstr_start = align_up(dynsym_start + dynsym_size, 8);
    let dynstr_size = dynstr(mc, n).len() as int;
    let hash_start = align_up(dynstr_start + dynstr_size, 8);
    let hash_size = (n + 1 + n + 1 + 2) * 4;
    let dynamic_start = align_up(hash_start + hash_size, 16);
    let rw_end = dynamic_start + 176;
    let shoff = align_up(rw_end, 8);
    let rest = PAGE - rw_end % PAGE as int;
    Layout {
        rx_end,
        data_at,
        got_start,
        got_slots,
        rela_start,
        relas,
        dynsym_start,
        dynsym_size,
        dynstr_start,
        dynstr_size,
        hash_start,
        hash_size,
        dynamic_start,
        rw_end,
        heap_vaddr: align_up(rw_end, PAGE as int),
        heap_memsz: align_up(mc.heap_size as usize as int, PAGE as int),
        shoff,
        image_len: shoff + 576 + if rest > 64 {
            rest
        } else {
            64
        },
    }
}

/// The address that `r` takes, if it can be had before loading. A function
/// that is not there is left out.
pub open spec fn final_value(mc: McView, l: Layout, r: Reloc) -> Option<int> {
    match (r.sym, r.section) {
        (Sym::HeapBase, _) => Some(l.heap_vaddr),
        (Sym::String(off), Section::Code) => Some(l.data_at + off),
        (Sym::VtableOff(off), Section::Code) => Some(l.data_at + off),
        (Sym::ExcState(off), Section::Code) => Some(l.data_at + off),
        (Sym::Static(i), Section::Code) => if i < mc.static_offsets.len() {
            Some(l.data_at + mc.static_offsets[i as int])
        } else {
            None
        },
        (Sym::Import(i), Section::Code) => if i < mc.import_bases.len()
            && mc.import_bases[i as int] != usize::MAX {
            Some(CODE_BASE + mc.import_bases[i as int])
        } else {
            None
        },
        (Sym::Fn(i), Section::Data) => if i < mc.fn_bases.len() {
            Some(CODE_BASE + mc.fn_bases[i as int])
        } else {
            None
        },
        _ => None,
    }
}

/// The initial value of the slot for `r`.
pub open spec fn slot_value(mc: McView, l: Layout, r: Reloc) -> int {
    match final_value(mc, l, r) {
        Some(v) => v,
        None => 0,
    }
}

/// The register that the code loads an address into: `rsi` for strings, `rcx`
/// for vtables, static fields and the heap, `r8` for the exception state,
/// `rax` for imports.
pub open spec fn window_register(sym: Sym) -> int {
    match sym {
        Sym::String(_) => 6,
        Sym::VtableOff(_) => 1,
        Sym::Static(_) => 1,
        Sym::HeapBase => 1,
        Sym::ExcState(_) => 8,
        _ => 0,
    }
}

/// `mov reg, [rip + d32]` with three `nop`s behind it, in place of the ten
/// bytes of `movabs reg, imm64` whose immediate is at `site`.
pub open spec fn slot_load(site: int, reg: int, slot: int) -> Seq<u8> {
    seq![
        if reg >= 8 {
            0x4Cu8
        } else {
            0x48u8
        },
        0x8Bu8,
        (5 + 8 * (reg % 8)) as u8,
    ] + le32(wrap32(slot - (CODE_BASE + site + 5))) + seq![0x90u8, 0x90u8, 0x90u8]
}

/// Address of the slot for relocation `k`.
pub open spec fn slot_at(mc: McView, l: Layout, k: int) -> int {
    l.got_start + 8 * code_slots(mc, k)
}

/// For each address in the code among the first `n` relocations, its slot
/// and the load from it.
pub open spec fn slot_parts(mc: McView, l: Layout, n: int) -> Seq<Part>
    decreases n,
{
    if n <= 0 {
        seq![]
    } else {
        let before = slot_parts(mc, l, n - 1);
        let r = mc.relocs[n - 1];
        if in_code(r) {
            let slot = slot_at(mc, l, n - 1);
            before.push(
                Part { at: slot, bytes: le64(slot_value(mc, l, r) as u64) },
            ).push(
                Part {
                    at: CODE_BASE + r.site - 2,
                    bytes: slot_load(r.site as int, window_register(r.sym), slot),
                },
            )
        } else {
            before
        }
    }
}

/// A record that relocates the word at `at` to the load address plus `value`.
pub open spec fn rela_record(at: int, value: int) -> Seq<u8> {
    le64(at as u64) + le64(8) + le64(value as u64)
}

/// The records of the slots among the first `n` relocations.
pub open spec fn code_relas(mc: McView, l: Layout, n: int) -> Seq<u8>
    decreases n,
{
    if n <= 0 {
        seq![]
    } else {
        let r = mc.relocs[n - 1];
        if in_code(r) {
            code_relas(mc, l, n - 1) + rela_record(slot_at(mc, l, n - 1), slot_value(mc, l, r))
        } else {
            code_relas(mc, l, n - 1)
        }
    }
}

/// The records of the data words among the first `n` relocations.
pub open spec fn data_relas(mc: McView, l: Layout, n: int) -> Seq<u8>
    decreases n,
{
    if n <= 0 {
        seq![]
    } else {
        let r = mc.relocs[n - 1];
        if in_data(r) {
            data_relas(mc, l, n - 1) + rela_record(l.data_at + r.site, slot_value(mc, l, r))
        } else {
            data_relas(mc, l, n - 1)
        }
    }
}

// ---- headers

#[verifier::opaque]
pub open spec fn file_header(l: Layout) -> Seq<u8> {
    seq![0x7Fu8, 0x45, 0x4C, 0x46, 2, 1, 1, 0] + zeros(8) + le16(3) + le16(62) + le32(1) + le64(0)
        + le64(80) + le64(l.shoff as u64) + le32(0) + le16(64) + le16(56) + le16(5) + le16(64) + le16(
        9,
    ) + le16(8)
}

/// The header of the tool chain, up to the program headers.
#[verifier::opaque]
pub open spec fn container_header(version: u16) -> Seq<u8> {
    marker() + seq![KIND_SHARED_LIBRARY] + le16(version) + zeros(3)
}

pub open spec fn segment(kind: u32, flags: u32, off: int, vaddr: int, filesz: int, memsz: int) -> Seq<
    u8,
> {
    le32(kind) + le32(flags) + le64(off as u64) + le64(vaddr as u64) + le64(vaddr as u64) + le64(
        filesz as u64,
    ) + le64(memsz as u64) + le64(PAGE as u64)
}

/// The program headers: code, data and heap, which are loaded; the dynamic
/// table; a stack that is not executable.
#[verifier::opaque]
pub open spec fn segments(l: Layout) -> Seq<u8> {
    segment(1, 5, 0, 0, l.rx_end, l.rx_end) + segment(
        1,
        6,
        l.data_at,
        l.data_at,
        l.rw_end - l.data_at,
        l.rw_end - l.data_at,
    ) + segment(1, 6, 0, l.heap_vaddr, 0, l.heap_memsz) + segment(
        2,
        6,
        l.dynamic_start,
        l.dynamic_start,
        176,
        176,
    ) + segment(0x6474_E551, 6, 0, 0, 0, 0)
}

/// Everything in front of the code.
#[verifier::opaque]
pub open spec fn head(l: Layout, version: u16) -> Seq<u8> {
    file_header(l) + container_header(version) + segments(l)
}

pub open spec fn section(
    name: u32,
    kind: u32,
    flags: u64,
    addr: int,
    off: int,
    size: int,
    link: u32,
    entry: u64,
) -> Seq<u8> {
    le32(name) + le32(kind) + le64(flags) + le64(addr as u64) + le64(off as u64) + le64(size as u64)
        + le32(link) + le32(0) + le64(8) + le64(entry)
}

/// The section headers: null, `.text`, `.data`, `.rela.dyn`, `.dynsym`,
/// `.dynstr`, `.hash`, `.dynamic`, `.shstrtab`.
#[verifier::opaque]
pub open spec fn sections(mc: McView, l: Layout) -> Seq<u8> {
    section(0, 0, 0, 0, 0, 0, 0, 0) + section(
        1,
        1,
        6,
        CODE_BASE as int,
        CODE_BASE as int,
        mc.code.len() as int,
        0,
        0,
    ) + section(7, 1, 3, l.data_at, l.data_at, l.rela_start - l.data_at, 0, 0) + section(
        13,
        4,
        2,
        l.rela_start,
        l.rela_start,
        l.relas * 24,
        4,
        24,
    ) + section(23, 11, 2, l.dynsym_start, l.dynsym_start, l.dynsym_size, 5, 24) + section(
        31,
        3,
        2,
        l.dynstr_start,
        l.dynstr_start,
        l.dynstr_size,
        0,
        0,
    ) + section(39, 5, 2, l.hash_start, l.hash_start, l.hash_size, 4, 4) + section(
        45,
        6,
        3,
        l.dynamic_start,
        l.dynamic_start,
        176,
        5,
        16,
    ) + section(54, 3, 0, 0, l.shoff + 576, 64, 0, 0)
}

/// The section names.
pub open spec fn section_names() -> Seq<u8> {
    encode_utf8(
        "\0.text\0.data\0.rela.dyn\0.dynsym\0.dynstr\0.hash\0.dynamic\0.shstrtab\0"@,
    )
}

/// Address of the function that runs at load time; 0 for none.
pub open spec fn init_vaddr(mc: McView) -> int {
    match mc.init_fn {
        Some(i) => if i < mc.fn_bases.len() {
            CODE_BASE + mc.fn_bases[i as int]
        } else {
            0
        },
        None => 0,
    }
}

pub open spec fn tagged(tag: u64, value: int) -> Seq<u8> {
    le64(tag) + le64(value as u64)
}

/// The dynamic table.
#[verifier::opaque]
pub open spec fn dynamic(mc: McView, l: Layout) -> Seq<u8> {
    tagged(4, l.hash_start) + tagged(5, l.dynstr_start) + tagged(6, l.dynsym_start) + tagged(
        10,
        l.dynstr_size,
    ) + tagged(11, 24) + tagged(7, l.rela_start) + tagged(8, l.relas * 24) + tagged(9, 24) + tagged(
        19,
        l.relas,
    ) + tagged(12, init_vaddr(mc)) + tagged(0, 0)
}

// ---- the image

/// The pieces of the image that come before the slots.
pub open spec fn first_parts(mc: McView, l: Layout, version: u16) -> Seq<Part> {
    seq![
        Part { at: 0, bytes: head(l, version) },
        Part { at: CODE_BASE as int, bytes: mc.code },
        Part {
            at: CODE_BASE + mc.code.len(),
            bytes: trampolines(mc, mc.exports.len() as int),
        },
        Part { at: l.data_at, bytes: mc.data },
    ]
}

/// The pieces that come behind the slots.
pub open spec fn last_parts(mc: McView, l: Layout) -> Seq<Part> {
    let n = mc.relocs.len() as int;
    seq![
        Part { at: l.rela_start, bytes: code_relas(mc, l, n) + data_relas(mc, l, n) },
        Part { at: l.dynsym_start, bytes: dynsym(mc, l.data_at, symbols(mc)) },
        Part { at: l.dynstr_start, bytes: dynstr(mc, symbols(mc)) },
        Part { at: l.hash_start, bytes: hash_bytes(mc) },
        Part { at: l.dynamic_start, bytes: dynamic(mc, l) },
        Part { at: l.shoff, bytes: sections(mc, l) },
        Part { at: l.shoff + 576, bytes: section_names() },
    ]
}

/// The whole image.
#[verifier::opaque]
pub open spec fn image_of(mc: McView, version: u16) -> Seq<u8> {
    let l = layout_of(mc);
    overlay(
        l.image_len,
        first_parts(mc, l, version) + slot_parts(mc, l, mc.relocs.len() as int) + last_parts(mc, l),
    )
}

/// Whether relocation `r` can be expressed: an address in the code has its
/// window in the image; an address in the data is that of the heap or of a
/// function.
pub open spec fn reloc_ready(mc: McView, l: Layout, r: Reloc) -> bool {
    &&& in_code(r) || in_data(r) ==> slot_value(mc, l, r) <= usize::MAX
    &&& in_code(r) ==> CODE_BASE + r.site + 8 <= l.image_len
    &&& in_data(r) ==> final_value(mc, l, r) is Some && l.data_at + r.site <= usize::MAX
}

/// Whether an image can be written: every export has a body, every relocation
/// can be expressed, symbols can be counted in 32 bits, and sizes and
/// addresses fit.
pub open spec fn shared_ready(mc: McView) -> bool {
    let l = layout_of(mc);
    &&& l.image_len <= usize::MAX
    &&& l.heap_memsz <= usize::MAX
    &&& symbols(mc) < u32::MAX
    &&& init_vaddr(mc) <= usize::MAX
    &&& forall|i: int|
        0 <= i < mc.exports.len() ==> (#[trigger] mc.exports[i]).1 < mc.fn_bases.len()
            && body_vaddr(mc, i) <= usize::MAX
    &&& forall|k: int|
        mc.exports.len() <= k < symbols(mc) ==> l.data_at + #[trigger] sym_offset(mc, k)
            <= usize::MAX
    &&& forall|k: int| 0 <= k < mc.relocs.len() ==> reloc_ready(mc, l, #[trigger] mc.relocs[k])
}

// ---- writing

fn export_receiver(mc: &MachineCode, i: usize) -> (r: bool)
    ensures
        r == takes_receiver(mc@, i as int),
{
    if i < mc.export_takes_receiver.len() {
        mc.export_takes_receiver[i]
    } else {
        true
    }
}

/// Room for the entry of an export of `nargs` parameters.
pub fn trampoline_size(nargs: usize, receiver: bool) -> (r: usize)
    ensures
        r == entry_size(nargs as int, receiver),
        6 <= r <= 70,
{
    if !receiver {
        return 6;
    }
    let n: usize = if nargs < 6 {
        nargs
    } else {
        6
    };
    34 + 6 * n
}

proof fn lemma_shift_args_len(n: int)
    requires
        0 <= n <= 5,
    ensures
        shift_args(n).len() == 3 * n,
    decreases n,
{
    if n > 0 {
        lemma_shift_args_len(n - 1);
    }
}

/// An entry fits its room; one without a receiver fills it.
pub proof fn trampoline_fits_its_room(nargs: int, at: int, body: int, receiver: bool)
    requires
        0 <= nargs,
    ensures
        trampoline(nargs, at, body, receiver).len() <= entry_size(nargs, receiver),
        !receiver ==> trampoline(nargs, at, body, receiver).len() == entry_size(nargs, receiver),
{
    if receiver {
        lemma_shift_args_len(min(nargs, 5));
    }
}

pub proof fn lemma_entries_grow(mc: McView, j: int, k: int)
    requires
        0 <= j <= k <= mc.exports.len(),
    ensures
        0 <= entries_size(mc, j) <= entries_size(mc, k),
        entries_size(mc, k) <= 70 * k,
    decreases k,
{
    if k > 0 {
        if j < k {
            lemma_entries_grow(mc, j, k - 1);
        } else {
            lemma_entries_grow(mc, j - 1, k - 1);
        }
    }
}

/// The entry of an export ends before that of a later one starts.
pub proof fn trampolines_lie_apart(mc: McView, i: int, j: int)
    requires
        0 <= i < j <= mc.exports.len(),
    ensures
        entry_vaddr(mc, i) + trampoline(
            mc.exports[i].2 as int,
            entry_vaddr(mc, i),
            body_vaddr(mc, i),
            takes_receiver(mc, i),
        ).len() <= entry_vaddr(mc, j),
{
    trampoline_fits_its_room(
        mc.exports[i].2 as int,
        entry_vaddr(mc, i),
        body_vaddr(mc, i),
        takes_receiver(mc, i),
    );
    lemma_entries_grow(mc, i + 1, j);
}

/// The entry at `at` of an export whose body is at `body`.
pub fn build_trampoline(nargs: usize, at: usize, body: usize, receiver: bool) -> (v: Vec<u8>)
    requires
        at + 30 <= usize::MAX,
    ensures
        v@ == trampoline(nargs as int, at as int, body as int, receiver),
        v@.len() <= entry_size(nargs as int, receiver),
{
    let mut v: Vec<u8> = Vec::new();
    proof {
        trampoline_fits_its_room(nargs as int, at as int, body as int, receiver);
    }
    if !receiver {
        v.push(0xE8);
        proof {
            assert(v@ =~= seq![0xE8u8]);
        }
        push_u32(&mut v, distance32(body, at + 5));
        let ghost before = v@;
        v.push(0xC3);
        proof {
            assert(v@ =~= before + seq![0xC3u8]);
        }
        return v;
    }
    let n: usize = if nargs < 5 {
        nargs
    } else {
        5
    };
    let mut i: usize = n;
    proof {
        assert(v@ + shift_args(n as int) =~= shift_args(n as int));
    }
    while i > 0
        invariant
            i <= n <= 5,
            v@ + shift_args(i as int) == shift_args(n as int),
        decreases i,
    {
        let ghost before = v@;
        let src: u8 = ARG[i - 1];
        let dst: u8 = ARG[i];
        v.push(rex_byte(true, src >= 8, dst >= 8));
        v.push(0x89);
        v.push(modrm_byte(3, src, dst));
        proof {
            let m = seq![rex(true, src >= 8, dst >= 8), 0x89u8, modrm(3, src, dst)];
            assert(v@ =~= before + m);
            lemma_assoc(before, m, shift_args(i - 1));
        }
        i -= 1;
    }
    proof {
        assert(v@ + shift_args(0) =~= v@);
        lemma_shift_args_len(n as int);
    }
    let ghost shifted = v@;
    v.push(0x31);
    v.push(0xFF);
    v.push(0xE8);
    proof {
        assert(v@ =~= shifted + seq![0x31u8, 0xFF, 0xE8]);
    }
    push_u32(&mut v, distance32(body, at + 3 * n + 7));
    let ghost before = v@;
    v.push(0xC3);
    proof {
        assert(v@ =~= before + seq![0xC3u8]);
    }
    v
}

fn build_trampolines(mc: &MachineCode) -> (v: Vec<u8>)
    requires
        CODE_BASE + mc@.code.len() + entries_size(mc@, mc@.exports.len() as int) + 512
            <= usize::MAX,
        forall|i: int|
            0 <= i < mc@.exports.len() ==> (#[trigger] mc@.exports[i]).1 < mc@.fn_bases.len()
                && body_vaddr(mc@, i) <= usize::MAX,
    ensures
        v@ == trampolines(mc@, mc@.exports.len() as int),
        v@.len() == entries_size(mc@, mc@.exports.len() as int),
{
    let mut v: Vec<u8> = Vec::new();
    let mut k: usize = 0;
    while k < mc.exports.len()
        invariant
            k <= mc.exports@.len(),
            CODE_BASE + mc@.code.len() + entries_size(mc@, mc@.exports.len() as int) + 512
                <= usize::MAX,
            forall|i: int|
                0 <= i < mc@.exports.len() ==> (#[trigger] mc@.exports[i]).1 < mc@.fn_bases.len()
                    && body_vaddr(mc@, i) <= usize::MAX,
            v@ == trampolines(mc@, k as int),
            v@.len() == entries_size(mc@, k as int),
        decreases mc.exports.len() - k,
    {
        proof {
            assert(mc@.exports[k as int].1 < mc@.fn_bases.len());
            lemma_entries_grow(mc@, k as int, mc@.exports.len() as int);
            lemma_entries_grow(mc@, k + 1, mc@.exports.len() as int);
        }
        let receiver: bool = export_receiver(mc, k);
        let arity: usize = mc.exports[k].2;
        let room: usize = v.len() + trampoline_size(arity, receiver);
        let at: usize = CODE_BASE + mc.code.len() + v.len();
        let body: usize = CODE_BASE + mc.fn_bases[mc.exports[k].1];
        proof {
            trampoline_fits_its_room(arity as int, at as int, body as int, receiver);
        }
        let entry: Vec<u8> = build_trampoline(arity, at, body, receiver);
        push_bytes(&mut v, entry.as_slice());
        push_pad(&mut v, room);
        k += 1;
    }
    v
}

/// The names of the symbols.
fn symbol_names(mc: &MachineCode) -> (r: Vec<Vec<u8>>)
    ensures
        r@.len() == symbols(mc@),
        forall|k: int| 0 <= k < symbols(mc@) ==> (#[trigger] r@[k])@ == sym_name(mc@, k),
{
    let mut r: Vec<Vec<u8>> = Vec::new();
    let mut i: usize = 0;
    while i < mc.exports.len()
        invariant
            i <= mc.exports@.len(),
            r@.len() == i,
            forall|k: int| 0 <= k < i ==> (#[trigger] r@[k])@ == sym_name(mc@, k),
        decreases mc.exports.len() - i,
    {
        r.push(bytes_of(&mc.exports[i].0));
        i += 1;
    }
    let ghost e = mc@.exports.len() as int;
    let mut i: usize = 0;
    while i < mc.vtable_names.len()
        invariant
            i <= mc.vtable_names@.len(),
            e == mc@.exports.len(),
            r@.len() == e + i,
            forall|k: int| 0 <= k < e + i ==> (#[trigger] r@[k])@ == sym_name(mc@, k),
        decreases mc.vtable_names.len() - i,
    {
        let mut name: String = mc.vtable_names[i].clone();
        name.append("::__vtable");
        r.push(bytes_of(&name));
        i += 1;
    }
    let ghost v = mc@.vtable_names.len() as int;
    let mut i: usize = 0;
    while i < mc.static_names.len()
        invariant
            i <= mc.static_names@.len(),
            e == mc@.exports.len(),
            v == mc@.vtable_names.len(),
            r@.len() == e + v + i,
            forall|k: int| 0 <= k < e + v + i ==> (#[trigger] r@[k])@ == sym_name(mc@, k),
        decreases mc.static_names.len() - i,
    {
        r.push(bytes_of(&mc.static_names[i]));
        i += 1;
    }
    r
}

fn bytes_of(s: &String) -> (r: Vec<u8>)
    ensures
        r@ == encode_utf8(s@),
{
    let mut r: Vec<u8> = Vec::new();
    push_bytes(&mut r, s.as_str().as_bytes());
    proof {
        lemma_empty_front(encode_utf8(s@));
    }
    r
}

/// The string table.
fn build_dynstr(mc: &MachineCode, names: &Vec<Vec<u8>>) -> (v: Vec<u8>)
    requires
        names@.len() == symbols(mc@),
        forall|k: int| 0 <= k < symbols(mc@) ==> (#[trigger] names@[k])@ == sym_name(mc@, k),
    ensures
        v@ == dynstr(mc@, symbols(mc@)),
{
    let mut v: Vec<u8> = vec![0u8];
    proof {
        assert(v@ =~= dynstr(mc@, 0));
    }
    let mut k: usize = 0;
    while k < names.len()
        invariant
            k <= names@.len(),
            names@.len() == symbols(mc@),
            forall|k: int| 0 <= k < symbols(mc@) ==> (#[trigger] names@[k])@ == sym_name(mc@, k),
            v@ == dynstr(mc@, k as int),
        decreases names.len() - k,
    {
        push_bytes(&mut v, names[k].as_slice());
        let ghost before = v@;
        v.push(0);
        proof {
            assert(v@ =~= before + seq![0u8]);
        }
        k += 1;
    }
    v
}

/// `Layout` as computed.
struct Plan {
    rx_end: usize,
    data_at: usize,
    got_start: usize,
    got_slots: usize,
    rela_start: usize,
    relas: usize,
    dynsym_start: usize,
    dynsym_size: usize,
    dynstr_start: usize,
    dynstr_size: usize,
    hash_start: usize,
    hash_size: usize,
    dynamic_start: usize,
    rw_end: usize,
    heap_vaddr: usize,
    heap_memsz: usize,
    shoff: usize,
    image_len: usize,
}

impl Plan {
    spec fn is(self, l: Layout) -> bool {
        &&& self.rx_end == l.rx_end
        &&& self.data_at == l.data_at
        &&& self.got_start == l.got_start
        &&& self.got_slots == l.got_slots
        &&& self.rela_start == l.rela_start
        &&& self.relas == l.relas
        &&& self.dynsym_start == l.dynsym_start
        &&& self.dynsym_size == l.dynsym_size
        &&& self.dynstr_start == l.dynstr_start
        &&& self.dynstr_size == l.dynstr_size
        &&& self.hash_start == l.hash_start
        &&& self.hash_size == l.hash_size
        &&& self.dynamic_start == l.dynamic_start
        &&& self.rw_end == l.rw_end
        &&& self.heap_vaddr == l.heap_vaddr
        &&& self.heap_memsz == l.heap_memsz
        &&& self.shoff == l.shoff
        &&& self.image_len == l.image_len
    }
}

pub proof fn lemma_slots(mc: McView, j: int, n: int)
    requires
        0 <= j <= n,
    ensures
        0 <= code_slots(mc, j) <= code_slots(mc, n),
        0 <= data_slots(mc, j) <= data_slots(mc, n),
        code_slots(mc, n) + data_slots(mc, n) <= n,
        code_slots(mc, j) + (n - j) >= code_slots(mc, n),
    decreases n,
{
    if n > 0 {
        if j < n {
            lemma_slots(mc, j, n - 1);
        } else {
            lemma_slots(mc, j - 1, n - 1);
        }
    }
}

/// The order of the pieces.
pub proof fn lemma_layout(mc: McView)
    ensures
        ({
            let l = layout_of(mc);
            &&& CODE_BASE + mc.code.len() <= l.rx_end <= l.data_at
            &&& l.data_at + mc.data.len() <= l.got_start
            &&& l.got_start + 8 * l.got_slots <= l.rela_start
            &&& l.rela_start + 24 * l.relas <= l.dynsym_start
            &&& l.dynsym_start + l.dynsym_size <= l.dynstr_start
            &&& l.dynstr_start + l.dynstr_size <= l.hash_start
            &&& l.hash_start + l.hash_size <= l.dynamic_start
            &&& l.dynamic_start + 176 == l.rw_end
            &&& l.rw_end <= l.shoff
            &&& l.shoff + 576 + 64 <= l.image_len
            &&& l.rw_end <= l.heap_vaddr <= l.image_len
            &&& l.data_at < l.rx_end + 4096
            &&& 0 <= l.got_slots <= l.relas
            &&& l.rx_end == CODE_BASE + mc.code.len() + entries_size(mc, mc.exports.len() as int)
            &&& l.got_slots == code_slots(mc, mc.relocs.len() as int)
            &&& l.relas == l.got_slots + data_slots(mc, mc.relocs.len() as int)
            &&& l.dynsym_size == (symbols(mc) + 1) * 24
            &&& l.dynstr_size == dynstr(mc, symbols(mc)).len()
            &&& l.hash_size == (symbols(mc) + 1 + symbols(mc) + 1 + 2) * 4
        }),
{
    reveal(layout_of);
    let l = layout_of(mc);
    lemma_entries_grow(mc, mc.exports.len() as int, mc.exports.len() as int);
    lemma_slots(mc, mc.relocs.len() as int, mc.relocs.len() as int);
    lemma_align_up(l.rx_end, PAGE as int);
    lemma_align_up(l.data_at + mc.data.len(), 8);
    lemma_align_up(l.got_start + l.got_slots * 8, 8);
    lemma_align_up(l.rela_start + l.relas * 24, 8);
    lemma_align_up(l.dynsym_start + l.dynsym_size, 8);
    lemma_align_up(l.dynstr_start + l.dynstr_size, 8);
    lemma_align_up(l.hash_start + l.hash_size, 16);
    lemma_align_up(l.rw_end, 8);
    lemma_align_up(l.rw_end, PAGE as int);
}

/// Whether sizes of `l` fit.
pub open spec fn layout_fits(l: Layout) -> bool {
    l.image_len <= usize::MAX && l.heap_memsz <= usize::MAX
}

/// Sizes of the parts whose number depends on the program.
fn counts(mc: &MachineCode) -> (r: (u128, usize, usize))
    ensures
        r.0 == entries_size(mc@, mc@.exports.len() as int),
        r.0 <= 70 * usize::MAX,
        r.1 == code_slots(mc@, mc@.relocs.len() as int),
        r.2 == data_slots(mc@, mc@.relocs.len() as int),
{
    let mut entries: u128 = 0;
    let mut k: usize = 0;
    while k < mc.exports.len()
        invariant
            k <= mc.exports@.len(),
            entries == entries_size(mc@, k as int),
            entries <= 70 * k,
        decreases mc.exports.len() - k,
    {
        entries = entries + trampoline_size(mc.exports[k].2, export_receiver(mc, k)) as u128;
        k += 1;
    }
    let mut c: usize = 0;
    let mut d: usize = 0;
    let mut k: usize = 0;
    while k < mc.relocs.len()
        invariant
            k <= mc.relocs@.len(),
            c == code_slots(mc@, k as int),
            d == data_slots(mc@, k as int),
            c + d <= k,
        decreases mc.relocs.len() - k,
    {
        let r: Reloc = mc.relocs[k];
        if r.kind == RelocKind::Abs64 {
            match r.section {
                Section::Code => {
                    c += 1;
                },
                Section::Data => {
                    d += 1;
                },
            }
        }
        k += 1;
    }
    (entries, c, d)
}

/// The layout, where it fits.
fn plan_layout(mc: &MachineCode, names: usize, dynstr_len: usize) -> (r: Option<Plan>)
    requires
        names == symbols(mc@),
        dynstr_len == dynstr(mc@, symbols(mc@)).len(),
    ensures
        r matches Some(plan) ==> plan.is(layout_of(mc@)) && layout_fits(layout_of(mc@)),
        r is None ==> !layout_fits(layout_of(mc@)),
{
    let (entries, c, d) = counts(mc);
    let syms: u128 = names as u128;
    let page: u128 = PAGE as u128;
    let rx_end: u128 = CODE_BASE as u128 + mc.code.len() as u128 + entries;
    let data_at: u128 = align_u128(rx_end, page);
    let got_start: u128 = align_u128(data_at + mc.data.len() as u128, 8);
    let rela_start: u128 = align_u128(got_start + c as u128 * 8, 8);
    let relas: u128 = c as u128 + d as u128;
    let dynsym_start: u128 = align_u128(rela_start + relas * 24, 8);
    let dynsym_size: u128 = (syms + 1) * 24;
    let dynstr_start: u128 = align_u128(dynsym_start + dynsym_size, 8);
    let hash_start: u128 = align_u128(dynstr_start + dynstr_len as u128, 8);
    let hash_size: u128 = (syms + 1 + syms + 1 + 2) * 4;
    let dynamic_start: u128 = align_u128(hash_start + hash_size, 16);
    let rw_end: u128 = dynamic_start + 176;
    let shoff: u128 = align_u128(rw_end, 8);
    let heap_vaddr: u128 = align_u128(rw_end, page);
    let heap_memsz: u128 = align_u128(mc.heap_size as usize as u128, page);
    let rest: u128 = page - rw_end % page;
    let image_len: u128 = shoff + 576 + if rest > 64 {
        rest
    } else {
        64
    };
    proof {
        reveal(layout_of);
        lemma_layout(mc@);
        assert(image_len == layout_of(mc@).image_len);
    }
    if image_len > usize::MAX as u128 || heap_memsz > usize::MAX as u128 {
        return None;
    }
    Some(
        Plan {
            rx_end: rx_end as usize,
            data_at: data_at as usize,
            got_start: got_start as usize,
            got_slots: c,
            rela_start: rela_start as usize,
            relas: relas as usize,
            dynsym_start: dynsym_start as usize,
            dynsym_size: dynsym_size as usize,
            dynstr_start: dynstr_start as usize,
            dynstr_size: dynstr_len,
            hash_start: hash_start as usize,
            hash_size: hash_size as usize,
            dynamic_start: dynamic_start as usize,
            rw_end: rw_end as usize,
            heap_vaddr: heap_vaddr as usize,
            heap_memsz: heap_memsz as usize,
            shoff: shoff as usize,
            image_len: image_len as usize,
        },
    )
}

/// `a + b`, where it fits.
fn plus(a: usize, b: usize) -> (r: (bool, Option<usize>))
    ensures
        r.0 == (a + b <= usize::MAX),
        r.0 ==> r.1 == Some((a + b) as usize),
{
    match a.checked_add(b) {
        Some(v) => (true, Some(v)),
        None => (false, None),
    }
}

/// Whether the address that `r` takes fits, and the address.
fn value_of(mc: &MachineCode, l: Ghost<Layout>, plan: &Plan, r: &Reloc) -> (x: (
    bool,
    Option<usize>,
))
    requires
        plan.is(l@),
    ensures
        x.0 == (slot_value(mc@, l@, *r) <= usize::MAX),
        x.0 ==> match final_value(mc@, l@, *r) {
            Some(v) => x.1 == Some(v as usize) && v >= 0,
            None => x.1 is None,
        },
{
    match (&r.sym, r.section) {
        (Sym::HeapBase, _) => (true, Some(plan.heap_vaddr)),
        (Sym::String(off), Section::Code) => plus(plan.data_at, *off),
        (Sym::VtableOff(off), Section::Code) => plus(plan.data_at, *off),
        (Sym::ExcState(off), Section::Code) => plus(plan.data_at, *off),
        (Sym::Static(i), Section::Code) => if *i < mc.static_offsets.len() {
            plus(plan.data_at, mc.static_offsets[*i])
        } else {
            (true, None)
        },
        (Sym::Import(i), Section::Code) => if *i < mc.import_bases.len() && mc.import_bases[*i]
            != usize::MAX {
            plus(CODE_BASE, mc.import_bases[*i])
        } else {
            (true, None)
        },
        (Sym::Fn(i), Section::Data) => if *i < mc.fn_bases.len() {
            plus(CODE_BASE, mc.fn_bases[*i])
        } else {
            (true, None)
        },
        _ => (true, None),
    }
}

/// The initial value of the slot for `r`.
fn slot_value_of(mc: &MachineCode, l: Ghost<Layout>, plan: &Plan, r: &Reloc) -> (x: usize)
    requires
        plan.is(l@),
        slot_value(mc@, l@, *r) <= usize::MAX,
    ensures
        x == slot_value(mc@, l@, *r),
{
    match value_of(mc, l, plan, r).1 {
        Some(v) => v,
        None => 0,
    }
}

fn is_in_code(r: &Reloc) -> (x: bool)
    ensures
        x == in_code(*r),
{
    r.kind == RelocKind::Abs64 && r.section == Section::Code
}

fn is_in_data(r: &Reloc) -> (x: bool)
    ensures
        x == in_data(*r),
{
    r.kind == RelocKind::Abs64 && r.section == Section::Data
}

fn register_of(sym: &Sym) -> (x: u8)
    ensures
        x == window_register(*sym),
        x <= 8,
{
    match sym {
        Sym::String(_) => 6,
        Sym::VtableOff(_) => 1,
        Sym::Static(_) => 1,
        Sym::HeapBase => 1,
        Sym::ExcState(_) => 8,
        _ => 0,
    }
}

fn build_slot_load(site: usize, reg: u8, slot: usize) -> (v: Vec<u8>)
    requires
        reg <= 8,
        CODE_BASE + site + 8 <= usize::MAX,
    ensures
        v@ == slot_load(site as int, reg as int, slot as int),
        v@.len() == 10,
{
    let mut v: Vec<u8> = Vec::new();
    if reg >= 8 {
        v.push(0x4C);
    } else {
        v.push(0x48);
    }
    v.push(0x8B);
    v.push(5 + 8 * (reg % 8));
    proof {
        assert(v@ =~= seq![
            if reg >= 8 {
                0x4Cu8
            } else {
                0x48u8
            },
            0x8Bu8,
            (5 + 8 * (reg as int % 8)) as u8,
        ]);
    }
    push_u32(&mut v, distance32(slot, CODE_BASE + site + 5));
    let ghost before = v@;
    v.push(0x90);
    v.push(0x90);
    v.push(0x90);
    proof {
        assert(v@ =~= before + seq![0x90u8, 0x90u8, 0x90u8]);
    }
    v
}

fn push_rela(v: &mut Vec<u8>, at: usize, value: usize)
    ensures
        final(v)@ == old(v)@ + rela_record(at as int, value as int),
{
    let ghost o = v@;
    push_u64(v, at as u64);
    push_u64(v, 8);
    push_u64(v, value as u64);
    proof {
        lemma_assoc(o, le64(at as u64), le64(8));
        lemma_assoc(o, le64(at as u64) + le64(8), le64(value as u64));
    }
}

pub proof fn lemma_relas_len(mc: McView, l: Layout, n: int)
    requires
        0 <= n,
    ensures
        code_relas(mc, l, n).len() == 24 * code_slots(mc, n),
        data_relas(mc, l, n).len() == 24 * data_slots(mc, n),
    decreases n,
{
    if n > 0 {
        lemma_relas_len(mc, l, n - 1);
    }
}

/// The relocation records.
fn build_relas(mc: &MachineCode, l: Ghost<Layout>, plan: &Plan) -> (v: Vec<u8>)
    requires
        plan.is(l@),
        l@ == layout_of(mc@),
        layout_fits(l@),
        forall|k: int| 0 <= k < mc@.relocs.len() ==> reloc_ready(mc@, l@, #[trigger] mc@.relocs[k]),
    ensures
        v@ == code_relas(mc@, l@, mc@.relocs.len() as int) + data_relas(
            mc@,
            l@,
            mc@.relocs.len() as int,
        ),
{
    let ghost n = mc@.relocs.len() as int;
    proof {
        lemma_layout(mc@);
    }
    let mut v: Vec<u8> = Vec::new();
    let mut slot: usize = plan.got_start;
    let mut k: usize = 0;
    while k < mc.relocs.len()
        invariant
            k <= mc.relocs@.len(),
            n == mc@.relocs.len(),
            plan.is(l@),
            l@ == layout_of(mc@),
            l@.got_start + 8 * code_slots(mc@, n) <= usize::MAX,
            forall|k: int|
                0 <= k < mc@.relocs.len() ==> reloc_ready(mc@, l@, #[trigger] mc@.relocs[k]),
            slot == slot_at(mc@, l@, k as int),
            v@ == code_relas(mc@, l@, k as int),
        decreases mc.relocs.len() - k,
    {
        let r: Reloc = mc.relocs[k];
        proof {
            assert(reloc_ready(mc@, l@, mc@.relocs[k as int]));
            lemma_slots(mc@, k + 1, n);
        }
        if is_in_code(&r) {
            push_rela(&mut v, slot, slot_value_of(mc, l, plan, &r));
            slot = slot + 8;
        }
        k += 1;
    }
    let ghost front = v@;
    let mut k: usize = 0;
    proof {
        assert(v@ =~= front + data_relas(mc@, l@, 0));
    }
    while k < mc.relocs.len()
        invariant
            k <= mc.relocs@.len(),
            n == mc@.relocs.len(),
            plan.is(l@),
            forall|k: int|
                0 <= k < mc@.relocs.len() ==> reloc_ready(mc@, l@, #[trigger] mc@.relocs[k]),
            v@ == front + data_relas(mc@, l@, k as int),
        decreases mc.relocs.len() - k,
    {
        let r: Reloc = mc.relocs[k];
        proof {
            assert(reloc_ready(mc@, l@, mc@.relocs[k as int]));
        }
        if is_in_data(&r) {
            let ghost record = rela_record(l@.data_at + r.site, slot_value(mc@, l@, r));
            proof {
                lemma_assoc(front, data_relas(mc@, l@, k as int), record);
            }
            push_rela(&mut v, plan.data_at + r.site, slot_value_of(mc, l, plan, &r));
        }
        k += 1;
    }
    v
}

/// The hash of a name.
fn hash_name(name: &Vec<u8>) -> (h: u32)
    ensures
        h == elf_hash(name@),
{
    let mut h: u32 = 0;
    let mut k: usize = 0;
    proof {
        assert(name@.take(0) =~= Seq::empty());
    }
    while k < name.len()
        invariant
            k <= name@.len(),
            h == elf_hash(name@.take(k as int)),
        decreases name.len() - k,
    {
        proof {
            assert(name@.take(k + 1).drop_last() =~= name@.take(k as int));
        }
        let t: u32 = ((h as u64 * 16 + name[k] as u64) % 0x1_0000_0000) as u32;
        h = (t % 0x1000_0000) ^ (t / 0x1000_0000 * 16);
        k += 1;
    }
    proof {
        assert(name@.take(k as int) =~= name@);
    }
    h
}

fn push_le32s(v: &mut Vec<u8>, xs: &Vec<u32>)
    ensures
        final(v)@ == old(v)@ + le32s(xs@),
{
    let ghost o = v@;
    let mut k: usize = 0;
    proof {
        assert(v@ =~= o + le32s(xs@.take(0)));
    }
    while k < xs.len()
        invariant
            k <= xs@.len(),
            v@ == o + le32s(xs@.take(k as int)),
        decreases xs.len() - k,
    {
        proof {
            assert(xs@.take(k + 1).drop_last() =~= xs@.take(k as int));
            lemma_assoc(o, le32s(xs@.take(k as int)), le32(xs@[k as int]));
        }
        push_u32(v, xs[k]);
        k += 1;
    }
    proof {
        assert(xs@.take(k as int) =~= xs@);
    }
}

proof fn lemma_hash_tables_len(mc: McView, n: int, k: int)
    requires
        0 <= k < n,
    ensures
        hash_tables(mc, n, k).0.len() == n,
        hash_tables(mc, n, k).1.len() == n,
    decreases k,
{
    if k > 0 {
        lemma_hash_tables_len(mc, n, k - 1);
    }
}

/// The hash table.
fn build_hash(mc: &MachineCode, names: &Vec<Vec<u8>>) -> (v: Vec<u8>)
    requires
        symbols(mc@) < u32::MAX,
        names@.len() == symbols(mc@),
        forall|k: int| 0 <= k < symbols(mc@) ==> (#[trigger] names@[k])@ == sym_name(mc@, k),
    ensures
        v@ == hash_bytes(mc@),
{
    proof {
        reveal(hash_bytes);
    }
    let n: u32 = names.len() as u32 + 1;
    let mut buckets: Vec<u32> = vec![0u32; n as usize];
    let mut chains: Vec<u32> = vec![0u32; n as usize];
    let mut k: u32 = 0;
    proof {
        assert(buckets@ =~= hash_tables(mc@, n as int, 0).0);
        assert(chains@ =~= hash_tables(mc@, n as int, 0).1);
    }
    while k < n - 1
        invariant
            k <= n - 1,
            n == symbols(mc@) + 1,
            names@.len() == symbols(mc@),
            forall|k: int| 0 <= k < symbols(mc@) ==> (#[trigger] names@[k])@ == sym_name(mc@, k),
            (buckets@, chains@) == hash_tables(mc@, n as int, k as int),
        decreases n - k,
    {
        proof {
            lemma_hash_tables_len(mc@, n as int, k as int);
        }
        let b: u32 = hash_name(&names[k as usize]) % n;
        chains.set(k as usize + 1, buckets[b as usize]);
        buckets.set(b as usize, k + 1);
        k += 1;
    }
    let mut v: Vec<u8> = Vec::new();
    proof {
        lemma_empty_front(le32(n));
    }
    push_u32(&mut v, n);
    push_u32(&mut v, n);
    push_le32s(&mut v, &buckets);
    push_le32s(&mut v, &chains);
    v
}

/// Offset `i` of `offsets`, or 0 where there is none.
fn offset_at(offsets: &Vec<usize>, i: usize) -> (r: usize)
    ensures
        r == offset_or_zero(offsets@, i as int),
{
    if i < offsets.len() {
        offsets[i]
    } else {
        0
    }
}

/// The dynamic symbols.
fn build_dynsym(mc: &MachineCode, names: &Vec<Vec<u8>>, data_at: usize) -> (v: Vec<u8>)
    requires
        names@.len() == symbols(mc@),
        forall|k: int| 0 <= k < symbols(mc@) ==> (#[trigger] names@[k])@ == sym_name(mc@, k),
        CODE_BASE + mc@.code.len() + entries_size(mc@, mc@.exports.len() as int) <= usize::MAX,
        dynstr(mc@, symbols(mc@)).len() <= usize::MAX,
        forall|i: int|
            0 <= i < mc@.exports.len() ==> (#[trigger] mc@.exports[i]).1 < mc@.fn_bases.len()
                && body_vaddr(mc@, i) <= usize::MAX,
        forall|k: int|
            mc@.exports.len() <= k < symbols(mc@) ==> data_at + #[trigger] sym_offset(mc@, k)
                <= usize::MAX,
    ensures
        v@ == dynsym(mc@, data_at as int, symbols(mc@)),
{
    let e: usize = mc.exports.len();
    let mut v: Vec<u8> = Vec::new();
    push_zeros(&mut v, 24);
    proof {
        lemma_empty_front(zeros(24));
        lemma_entries_grow(mc@, 0, mc@.exports.len() as int);
    }
    let mut name: usize = 1;
    let mut entry: usize = CODE_BASE + mc.code.len();
    let mut k: usize = 0;
    while k < names.len()
        invariant
            k <= names@.len(),
            e == mc@.exports.len(),
            names@.len() == symbols(mc@),
            forall|k: int| 0 <= k < symbols(mc@) ==> (#[trigger] names@[k])@ == sym_name(mc@, k),
            CODE_BASE + mc@.code.len() + entries_size(mc@, mc@.exports.len() as int) <= usize::MAX,
            dynstr(mc@, symbols(mc@)).len() <= usize::MAX,
            forall|i: int|
                0 <= i < mc@.exports.len() ==> (#[trigger] mc@.exports[i]).1 < mc@.fn_bases.len()
                    && body_vaddr(mc@, i) <= usize::MAX,
            forall|k: int|
                mc@.exports.len() <= k < symbols(mc@) ==> data_at + #[trigger] sym_offset(mc@, k)
                    <= usize::MAX,
            name == dynstr(mc@, k as int).len(),
            k <= e ==> entry == entry_vaddr(mc@, k as int),
            v@ == dynsym(mc@, data_at as int, k as int),
        decreases names.len() - k,
    {
        let value: usize = if k < e {
            proof {
                assert(mc@.exports[k as int].1 < mc@.fn_bases.len());
            }
            if export_receiver(mc, k) {
                entry
            } else {
                CODE_BASE + mc.fn_bases[mc.exports[k].1]
            }
        } else {
            proof {
                assert(data_at + sym_offset(mc@, k as int) <= usize::MAX);
            }
            if k - e < mc.vtable_names.len() {
                data_at + offset_at(&mc.vtable_offsets, k - e)
            } else {
                data_at + offset_at(&mc.static_offsets, k - e - mc.vtable_names.len())
            }
        };
        push_symbol(&mut v, name, k < e, value);
        proof {
            lemma_dynstr_grows(mc@, k + 1, symbols(mc@));
        }
        if k < e {
            proof {
                lemma_entries_grow(mc@, k + 1, mc@.exports.len() as int);
            }
            entry = entry + trampoline_size(mc.exports[k].2, export_receiver(mc, k));
        }
        name = name + names[k].len() + 1;
        k += 1;
    }
    v
}

proof fn lemma_dynstr_grows(mc: McView, j: int, k: int)
    requires
        0 <= j <= k,
    ensures
        1 <= dynstr(mc, j).len() <= dynstr(mc, k).len(),
    decreases k,
{
    if k > 0 {
        if j < k {
            lemma_dynstr_grows(mc, j, k - 1);
        } else {
            lemma_dynstr_grows(mc, j - 1, k - 1);
        }
    }
}

fn push_symbol(v: &mut Vec<u8>, name: usize, function: bool, value: usize)
    ensures
        final(v)@ == old(v)@ + (le32(wrap32(name as int)) + (if function {
            seq![0x12u8, 0u8] + le16(1)
        } else {
            seq![0x11u8, 0u8] + le16(2)
        }) + le64(value as u64) + zeros(8)),
{
    let ghost o = v@;
    let ghost a = le32(wrap32(name as int));
    let ghost b = if function {
        seq![0x12u8, 0u8] + le16(1)
    } else {
        seq![0x11u8, 0u8] + le16(2)
    };
    push_u32(v, (name as u64 % 0x1_0000_0000) as u32);
    let ghost before = v@;
    if function {
        v.push(0x12);
        v.push(0);
        proof {
            assert(v@ =~= before + seq![0x12u8, 0u8]);
            lemma_assoc(before, seq![0x12u8, 0u8], le16(1));
        }
        push_u16(v, 1);
    } else {
        v.push(0x11);
        v.push(0);
        proof {
            assert(v@ =~= before + seq![0x11u8, 0u8]);
            lemma_assoc(before, seq![0x11u8, 0u8], le16(2));
        }
        push_u16(v, 2);
    }
    push_u64(v, value as u64);
    push_zeros(v, 8);
    proof {
        lemma_assoc(o, a, b);
        lemma_assoc(o, a + b, le64(value as u64));
        lemma_assoc(o, a + b + le64(value as u64), zeros(8));
    }
}

fn build_segment(kind: u32, flags: u32, off: usize, vaddr: usize, filesz: usize, memsz: usize) -> (v:
    Vec<u8>)
    ensures
        v@ == segment(
            kind,
            flags,
            off as int,
            vaddr as int,
            filesz as int,
            memsz as int,
        ),
{
    let mut v: Vec<u8> = Vec::new();
    proof {
        lemma_empty_front(le32(kind));
    }
    push_u32(&mut v, kind);
    push_u32(&mut v, flags);
    push_u64(&mut v, off as u64);
    push_u64(&mut v, vaddr as u64);
    push_u64(&mut v, vaddr as u64);
    push_u64(&mut v, filesz as u64);
    push_u64(&mut v, memsz as u64);
    push_u64(&mut v, PAGE as u64);
    v
}

fn build_segments(l: Ghost<Layout>, plan: &Plan) -> (v: Vec<u8>)
    requires
        plan.is(l@),
        l@.data_at <= l@.rw_end,
    ensures
        v@ == segments(l@),
{
    proof {
        reveal(segments);
    }
    let rw: usize = plan.rw_end - plan.data_at;
    let mut v: Vec<u8> = build_segment(1, 5, 0, 0, plan.rx_end, plan.rx_end);
    push_bytes(&mut v, build_segment(1, 6, plan.data_at, plan.data_at, rw, rw).as_slice());
    push_bytes(&mut v, build_segment(1, 6, 0, plan.heap_vaddr, 0, plan.heap_memsz).as_slice());
    push_bytes(
        &mut v,
        build_segment(2, 6, plan.dynamic_start, plan.dynamic_start, 176, 176).as_slice(),
    );
    push_bytes(&mut v, build_segment(0x6474_E551, 6, 0, 0, 0, 0).as_slice());
    v
}

fn build_file_header(l: Ghost<Layout>, plan: &Plan) -> (v: Vec<u8>)
    requires
        plan.is(l@),
    ensures
        v@ == file_header(l@),
{
    proof {
        reveal(file_header);
    }
    let mut v: Vec<u8> = vec![0x7F, 0x45, 0x4C, 0x46, 2, 1, 1, 0];
    proof {
        assert(v@ =~= seq![0x7Fu8, 0x45, 0x4C, 0x46, 2, 1, 1, 0]);
    }
    push_zeros(&mut v, 8);
    push_u16(&mut v, 3);
    push_u16(&mut v, 62);
    push_u32(&mut v, 1);
    push_u64(&mut v, 0);
    push_u64(&mut v, 80);
    push_u64(&mut v, plan.shoff as u64);
    push_u32(&mut v, 0);
    push_u16(&mut v, 64);
    push_u16(&mut v, 56);
    push_u16(&mut v, 5);
    push_u16(&mut v, 64);
    push_u16(&mut v, 9);
    push_u16(&mut v, 8);
    v
}

fn build_container_header(version: u16) -> (v: Vec<u8>)
    ensures
        v@ == container_header(version),
{
    proof {
        reveal(container_header);
    }
    let mut v: Vec<u8> = Vec::new();
    proof {
        lemma_empty_front(JUMP_OVER_MAGIC@);
    }
    push_bytes(&mut v, JUMP_OVER_MAGIC.as_slice());
    push_bytes(&mut v, MAGIC.as_slice());
    let ghost before = v@;
    v.push(KIND_SHARED_LIBRARY);
    proof {
        assert(v@ =~= before + seq![KIND_SHARED_LIBRARY]);
    }
    push_u16(&mut v, version);
    push_zeros(&mut v, 3);
    v
}

fn build_head(l: Ghost<Layout>, plan: &Plan, version: u16) -> (v: Vec<u8>)
    requires
        plan.is(l@),
        l@.data_at <= l@.rw_end,
    ensures
        v@ == head(l@, version),
{
    proof {
        reveal(head);
    }
    let mut v: Vec<u8> = build_file_header(l, plan);
    push_bytes(&mut v, build_container_header(version).as_slice());
    push_bytes(&mut v, build_segments(l, plan).as_slice());
    v
}

fn build_section(
    name: u32,
    kind: u32,
    flags: u64,
    addr: usize,
    off: usize,
    size: usize,
    link: u32,
    entry: u64,
) -> (v: Vec<u8>)
    ensures
        v@ == section(name, kind, flags, addr as int, off as int, size as int, link, entry),
{
    let mut v: Vec<u8> = Vec::new();
    proof {
        lemma_empty_front(le32(name));
    }
    push_u32(&mut v, name);
    push_u32(&mut v, kind);
    push_u64(&mut v, flags);
    push_u64(&mut v, addr as u64);
    push_u64(&mut v, off as u64);
    push_u64(&mut v, size as u64);
    push_u32(&mut v, link);
    push_u32(&mut v, 0);
    push_u64(&mut v, 8);
    push_u64(&mut v, entry);
    v
}

fn build_sections(mc: &MachineCode, l: Ghost<Layout>, plan: &Plan) -> (v: Vec<u8>)
    requires
        plan.is(l@),
        l@.data_at <= l@.rela_start,
        l@.relas * 24 <= usize::MAX,
        l@.shoff + 576 <= usize::MAX,
    ensures
        v@ == sections(mc@, l@),
{
    proof {
        reveal(sections);
    }
    let mut v: Vec<u8> = build_section(0, 0, 0, 0, 0, 0, 0, 0);
    push_bytes(
        &mut v,
        build_section(1, 1, 6, CODE_BASE, CODE_BASE, mc.code.len(), 0, 0).as_slice(),
    );
    push_bytes(
        &mut v,
        build_section(
            7,
            1,
            3,
            plan.data_at,
            plan.data_at,
            plan.rela_start - plan.data_at,
            0,
            0,
        ).as_slice(),
    );
    push_bytes(
        &mut v,
        build_section(
            13,
            4,
            2,
            plan.rela_start,
            plan.rela_start,
            plan.relas * 24,
            4,
            24,
        ).as_slice(),
    );
    push_bytes(
        &mut v,
        build_section(
            23,
            11,
            2,
            plan.dynsym_start,
            plan.dynsym_start,
            plan.dynsym_size,
            5,
            24,
        ).as_slice(),
    );
    push_bytes(
        &mut v,
        build_section(
            31,
            3,
            2,
            plan.dynstr_start,
            plan.dynstr_start,
            plan.dynstr_size,
            0,
            0,
        ).as_slice(),
    );
    push_bytes(
        &mut v,
        build_section(39, 5, 2, plan.hash_start, plan.hash_start, plan.hash_size, 4, 4).as_slice(),
    );
    push_bytes(
        &mut v,
        build_section(
            45,
            6,
            3,
            plan.dynamic_start,
            plan.dynamic_start,
            176,
            5,
            16,
        ).as_slice(),
    );
    push_bytes(&mut v, build_section(54, 3, 0, 0, plan.shoff + 576, 64, 0, 0).as_slice());
    v
}

fn push_tagged(v: &mut Vec<u8>, tag: u64, value: usize)
    ensures
        final(v)@ == old(v)@ + tagged(tag, value as int),
{
    let ghost o = v@;
    push_u64(v, tag);
    push_u64(v, value as u64);
    proof {
        lemma_assoc(o, le64(tag), le64(value as u64));
    }
}

fn build_dynamic(mc: &MachineCode, l: Ghost<Layout>, plan: &Plan) -> (v: Vec<u8>)
    requires
        plan.is(l@),
        l@.relas * 24 <= usize::MAX,
        init_vaddr(mc@) <= usize::MAX,
    ensures
        v@ == dynamic(mc@, l@),
{
    proof {
        reveal(dynamic);
    }
    let init: usize = match mc.init_fn {
        Some(i) => if i < mc.fn_bases.len() {
            CODE_BASE + mc.fn_bases[i]
        } else {
            0
        },
        None => 0,
    };
    let mut v: Vec<u8> = Vec::new();
    proof {
        lemma_empty_front(tagged(4, l@.hash_start));
    }
    push_tagged(&mut v, 4, plan.hash_start);
    push_tagged(&mut v, 5, plan.dynstr_start);
    push_tagged(&mut v, 6, plan.dynsym_start);
    push_tagged(&mut v, 10, plan.dynstr_size);
    push_tagged(&mut v, 11, 24);
    push_tagged(&mut v, 7, plan.rela_start);
    push_tagged(&mut v, 8, plan.relas * 24);
    push_tagged(&mut v, 9, 24);
    push_tagged(&mut v, 19, plan.relas);
    push_tagged(&mut v, 12, init);
    push_tagged(&mut v, 0, 0);
    v
}

proof fn lemma_section_names_len()
    ensures
        section_names().len() == 64,
{
    let t = "\0.text\0.data\0.rela.dyn\0.dynsym\0.dynstr\0.hash\0.dynamic\0.shstrtab\0"@;
    reveal_strlit(
        "\0.text\0.data\0.rela.dyn\0.dynsym\0.dynstr\0.hash\0.dynamic\0.shstrtab\0",
    );
    assert(t.len() == 64);
    assert(vstd::utf8::is_ascii_chars(t));
    vstd::utf8::is_ascii_chars_encode_utf8(t);
}

pub proof fn lemma_segment_len(kind: u32, flags: u32, off: int, vaddr: int, filesz: int, memsz: int)
    ensures
        segment(kind, flags, off, vaddr, filesz, memsz).len() == 56,
{
}

pub proof fn lemma_head_len(l: Layout, version: u16)
    ensures
        head(l, version).len() == CODE_BASE,
{
    reveal(head);
    reveal(segments);
    reveal(file_header);
    reveal(container_header);
    let rw = l.rw_end - l.data_at;
    lemma_segment_len(1, 5, 0, 0, l.rx_end, l.rx_end);
    lemma_segment_len(1, 6, l.data_at, l.data_at, rw, rw);
    lemma_segment_len(1, 6, 0, l.heap_vaddr, 0, l.heap_memsz);
    lemma_segment_len(2, 6, l.dynamic_start, l.dynamic_start, 176, 176);
    lemma_segment_len(0x6474_E551, 6, 0, 0, 0, 0);
    assert(segments(l).len() == 280);
    assert(file_header(l).len() == 64);
    assert(container_header(version).len() == 16);
}

proof fn lemma_section_len(
    name: u32,
    kind: u32,
    flags: u64,
    addr: int,
    off: int,
    size: int,
    link: u32,
    entry: u64,
)
    ensures
        section(name, kind, flags, addr, off, size, link, entry).len() == 64,
{
}

proof fn lemma_sections_len(mc: McView, l: Layout)
    ensures
        sections(mc, l).len() == 576,
{
    reveal(sections);
    let c = CODE_BASE as int;
    lemma_section_len(0, 0, 0, 0, 0, 0, 0, 0);
    lemma_section_len(1, 1, 6, c, c, mc.code.len() as int, 0, 0);
    lemma_section_len(7, 1, 3, l.data_at, l.data_at, l.rela_start - l.data_at, 0, 0);
    lemma_section_len(13, 4, 2, l.rela_start, l.rela_start, l.relas * 24, 4, 24);
    lemma_section_len(23, 11, 2, l.dynsym_start, l.dynsym_start, l.dynsym_size, 5, 24);
    lemma_section_len(31, 3, 2, l.dynstr_start, l.dynstr_start, l.dynstr_size, 0, 0);
    lemma_section_len(39, 5, 2, l.hash_start, l.hash_start, l.hash_size, 4, 4);
    lemma_section_len(45, 6, 3, l.dynamic_start, l.dynamic_start, 176, 5, 16);
    lemma_section_len(54, 3, 0, 0, l.shoff + 576, 64, 0, 0);
}

pub proof fn lemma_dynamic_len(mc: McView, l: Layout)
    ensures
        dynamic(mc, l).len() == 176,
{
    reveal(dynamic);
}

pub proof fn lemma_dynsym_len(mc: McView, data_at: int, k: int)
    requires
        0 <= k,
    ensures
        dynsym(mc, data_at, k).len() == 24 * (k + 1),
    decreases k,
{
    if k > 0 {
        lemma_dynsym_len(mc, data_at, k - 1);
    }
}

proof fn lemma_le32s_len(xs: Seq<u32>)
    ensures
        le32s(xs).len() == 4 * xs.len(),
    decreases xs.len(),
{
    if xs.len() > 0 {
        lemma_le32s_len(xs.drop_last());
    }
}

proof fn lemma_hash_len(mc: McView)
    ensures
        hash_bytes(mc).len() == (symbols(mc) + 1 + symbols(mc) + 1 + 2) * 4,
{
    reveal(hash_bytes);
    let n = symbols(mc) + 1;
    lemma_hash_tables_len(mc, n, symbols(mc));
    lemma_le32s_len(hash_tables(mc, n, symbols(mc)).0);
    lemma_le32s_len(hash_tables(mc, n, symbols(mc)).1);
}

pub proof fn lemma_trampolines_len(mc: McView, k: int)
    requires
        0 <= k <= mc.exports.len(),
    ensures
        trampolines(mc, k).len() == entries_size(mc, k),
    decreases k,
{
    if k > 0 {
        lemma_trampolines_len(mc, k - 1);
        trampoline_fits_its_room(
            mc.exports[k - 1].2 as int,
            entry_vaddr(mc, k - 1),
            body_vaddr(mc, k - 1),
            takes_receiver(mc, k - 1),
        );
    }
}

/// Writes one part over the image.
fn put(img: &mut Vec<u8>, n: Ghost<int>, parts: &mut Ghost<Seq<Part>>, at: usize, bytes: &[u8])
    requires
        old(img)@ == overlay(n@, old(parts)@),
        0 <= n@,
        at + bytes@.len() <= n@,
    ensures
        final(img)@ == overlay(n@, final(parts)@),
        final(parts)@ == old(parts)@.push(Part { at: at as int, bytes: bytes@ }),
{
    proof {
        lemma_overlay_len(n@, parts@);
        lemma_overlay_push(n@, parts@, Part { at: at as int, bytes: bytes@ });
    }
    write_at(img, at, bytes);
    *parts = Ghost(parts@.push(Part { at: at as int, bytes: bytes@ }));
}

/// Writes the slots and the loads from them.
fn put_slots(
    img: &mut Vec<u8>,
    n: Ghost<int>,
    parts: &mut Ghost<Seq<Part>>,
    mc: &MachineCode,
    l: Ghost<Layout>,
    plan: &Plan,
)
    requires
        old(img)@ == overlay(n@, old(parts)@),
        l@ == layout_of(mc@),
        layout_fits(l@),
        n@ == l@.image_len,
        plan.is(l@),
        forall|k: int| 0 <= k < mc@.relocs.len() ==> reloc_ready(mc@, l@, #[trigger] mc@.relocs[k]),
    ensures
        final(img)@ == overlay(n@, final(parts)@),
        final(parts)@ == old(parts)@ + slot_parts(mc@, l@, mc@.relocs.len() as int),
{
    let ghost all = mc@.relocs.len() as int;
    let ghost before = parts@;
    proof {
        lemma_layout(mc@);
        assert(before + slot_parts(mc@, l@, 0) =~= before);
    }
    let mut slot: usize = plan.got_start;
    let mut k: usize = 0;
    while k < mc.relocs.len()
        invariant
            k <= mc.relocs@.len(),
            all == mc@.relocs.len(),
            l@ == layout_of(mc@),
            layout_fits(l@),
            n@ == l@.image_len,
            plan.is(l@),
            l@.got_start + 8 * code_slots(mc@, all) <= n@ <= usize::MAX,
            forall|k: int|
                0 <= k < mc@.relocs.len() ==> reloc_ready(mc@, l@, #[trigger] mc@.relocs[k]),
            slot == slot_at(mc@, l@, k as int),
            img@ == overlay(n@, parts@),
            parts@ == before + slot_parts(mc@, l@, k as int),
        decreases mc.relocs.len() - k,
    {
        let r: Reloc = mc.relocs[k];
        proof {
            assert(reloc_ready(mc@, l@, mc@.relocs[k as int]));
            lemma_slots(mc@, k + 1, all);
        }
        if is_in_code(&r) {
            let value: usize = slot_value_of(mc, l, plan, &r);
            let mut word: Vec<u8> = Vec::new();
            proof {
                lemma_empty_front(le64(value as u64));
            }
            push_u64(&mut word, value as u64);
            put(img, n, parts, slot, word.as_slice());
            let load: Vec<u8> = build_slot_load(r.site, register_of(&r.sym), slot);
            put(img, n, parts, CODE_BASE + r.site - 2, load.as_slice());
            slot = slot + 8;
        }
        proof {
            assert(parts@ =~= before + slot_parts(mc@, l@, k + 1));
        }
        k += 1;
    }
}

/// Whether an image of `mc` can be written.
pub fn can_write_shared_library(mc: &MachineCode) -> (r: bool)
    ensures
        r == shared_ready(mc@),
{
    let names: Vec<Vec<u8>> = symbol_names(mc);
    if names.len() >= u32::MAX as usize {
        return false;
    }
    let dynstr: Vec<u8> = build_dynstr(mc, &names);
    let plan: Plan = match plan_layout(mc, names.len(), dynstr.len()) {
        Some(plan) => plan,
        None => {
            return false;
        },
    };
    let ghost l = layout_of(mc@);
    proof {
        lemma_layout(mc@);
    }
    if let Some(i) = mc.init_fn {
        if i < mc.fn_bases.len() && mc.fn_bases[i] > usize::MAX - CODE_BASE {
            return false;
        }
    }
    let mut i: usize = 0;
    while i < mc.exports.len()
        invariant
            i <= mc.exports@.len(),
            forall|j: int|
                0 <= j < i ==> (#[trigger] mc@.exports[j]).1 < mc@.fn_bases.len() && body_vaddr(
                    mc@,
                    j,
                ) <= usize::MAX,
        decreases mc.exports.len() - i,
    {
        let f: usize = mc.exports[i].1;
        if f >= mc.fn_bases.len() || mc.fn_bases[f] > usize::MAX - CODE_BASE {
            proof {
                assert(mc@.exports[i as int].1 == f);
            }
            return false;
        }
        i += 1;
    }
    let e: usize = mc.exports.len();
    let mut k: usize = e;
    while k < names.len()
        invariant
            e == mc@.exports.len(),
            e <= k <= names@.len(),
            names@.len() == symbols(mc@),
            l == layout_of(mc@),
            plan.is(l),
            forall|j: int|
                e <= j < k ==> l.data_at + #[trigger] sym_offset(mc@, j) <= usize::MAX,
        decreases names.len() - k,
    {
        let off: usize = if k - e < mc.vtable_names.len() {
            offset_at(&mc.vtable_offsets, k - e)
        } else {
            offset_at(&mc.static_offsets, k - e - mc.vtable_names.len())
        };
        proof {
            assert(off == sym_offset(mc@, k as int));
        }
        if off > usize::MAX - plan.data_at {
            return false;
        }
        k += 1;
    }
    let mut k: usize = 0;
    while k < mc.relocs.len()
        invariant
            k <= mc.relocs@.len(),
            l == layout_of(mc@),
            plan.is(l),
            CODE_BASE + 8 <= l.image_len,
            forall|j: int| 0 <= j < k ==> reloc_ready(mc@, l, #[trigger] mc@.relocs[j]),
        decreases mc.relocs.len() - k,
    {
        let r: Reloc = mc.relocs[k];
        let ok: bool = if is_in_code(&r) {
            value_of(mc, Ghost(l), &plan, &r).0 && r.site <= plan.image_len - CODE_BASE - 8
        } else if is_in_data(&r) {
            let (fits, value) = value_of(mc, Ghost(l), &plan, &r);
            fits && value.is_some() && r.site <= usize::MAX - plan.data_at
        } else {
            true
        };
        proof {
            assert(ok == reloc_ready(mc@, l, mc@.relocs[k as int]));
        }
        if !ok {
            return false;
        }
        k += 1;
    }
    true
}

/// Writes what comes before the slots.
fn put_first(
    img: &mut Vec<u8>,
    parts: &mut Ghost<Seq<Part>>,
    mc: &MachineCode,
    n: Ghost<int>,
    data_at: usize,
    front: &Vec<u8>,
    entries: &Vec<u8>,
)
    requires
        front@.len() == CODE_BASE,
        CODE_BASE + mc.code@.len() + entries@.len() <= data_at,
        data_at + mc.data@.len() <= n@,
        old(img)@ == overlay(n@, old(parts)@),
        old(parts)@ == Seq::<Part>::empty(),
    ensures
        final(img)@ == overlay(n@, final(parts)@),
        final(parts)@ == seq![
            Part { at: 0, bytes: front@ },
            Part { at: CODE_BASE as int, bytes: mc.code@ },
            Part { at: CODE_BASE + mc.code@.len(), bytes: entries@ },
            Part { at: data_at as int, bytes: mc.data@ },
        ],
{
    put(img, n, parts, 0, front.as_slice());
    put(img, n, parts, CODE_BASE, mc.code.as_slice());
    put(img, n, parts, CODE_BASE + mc.code.len(), entries.as_slice());
    put(img, n, parts, data_at, mc.data.as_slice());
    proof {
        let p = parts@;
        assert(p.len() == 4);
        assert(p[0] == Part { at: 0, bytes: front@ });
        assert(p[1] == Part { at: CODE_BASE as int, bytes: mc.code@ });
        assert(p[2] == Part { at: CODE_BASE + mc.code@.len(), bytes: entries@ });
        assert(p[3] == Part { at: data_at as int, bytes: mc.data@ });
        assert(p == seq![p[0], p[1], p[2], p[3]]);
    }
}

/// Writes what comes behind the slots.
fn put_last(
    img: &mut Vec<u8>,
    parts: &mut Ghost<Seq<Part>>,
    mc: &MachineCode,
    l: Ghost<Layout>,
    plan: &Plan,
    names: &Vec<Vec<u8>>,
    strings: &Vec<u8>,
)
    requires
        l@ == layout_of(mc@),
        shared_ready(mc@),
        plan.is(l@),
        names@.len() == symbols(mc@),
        forall|k: int| 0 <= k < symbols(mc@) ==> (#[trigger] names@[k])@ == sym_name(mc@, k),
        strings@ == dynstr(mc@, symbols(mc@)),
        old(img)@ == overlay(l@.image_len, old(parts)@),
    ensures
        final(img)@ == overlay(l@.image_len, final(parts)@),
        final(parts)@ == old(parts)@ + last_parts(mc@, l@),
{
    let ghost n = l@.image_len;
    let ghost before = parts@;
    proof {
        lemma_layout(mc@);
        lemma_sections_len(mc@, l@);
        lemma_section_names_len();
        lemma_dynamic_len(mc@, l@);
        lemma_dynsym_len(mc@, l@.data_at, symbols(mc@));
        lemma_hash_len(mc@);
        lemma_relas_len(mc@, l@, mc@.relocs.len() as int);
    }
    let relas: Vec<u8> = build_relas(mc, l, plan);
    put(img, Ghost(n), parts, plan.rela_start, relas.as_slice());
    let dynsym: Vec<u8> = build_dynsym(mc, names, plan.data_at);
    put(img, Ghost(n), parts, plan.dynsym_start, dynsym.as_slice());
    put(img, Ghost(n), parts, plan.dynstr_start, strings.as_slice());
    let hash: Vec<u8> = build_hash(mc, names);
    put(img, Ghost(n), parts, plan.hash_start, hash.as_slice());
    let dynamic: Vec<u8> = build_dynamic(mc, l, plan);
    put(img, Ghost(n), parts, plan.dynamic_start, dynamic.as_slice());
    let sections: Vec<u8> = build_sections(mc, l, plan);
    put(img, Ghost(n), parts, plan.shoff, sections.as_slice());
    let section_names: &[u8] =
        "\0.text\0.data\0.rela.dyn\0.dynsym\0.dynstr\0.hash\0.dynamic\0.shstrtab\0".as_bytes();
    put(img, Ghost(n), parts, plan.shoff + 576, section_names);
    proof {
        assert(parts@ =~= before + last_parts(mc@, l@));
    }
}

/// Writes the shared object of `mc`.
pub fn write_shared_library(mc: &MachineCode, format: &ContainerFormat) -> (r: Result<
    Vec<u8>,
    TargetError,
>)
    requires
        shared_ready(mc@),
    ensures
        r matches Ok(img) && img@ == image_of(mc@, format.format_version),
{
    let names: Vec<Vec<u8>> = symbol_names(mc);
    let dynstr: Vec<u8> = build_dynstr(mc, &names);
    let ghost l = layout_of(mc@);
    let plan: Plan = plan_layout(mc, names.len(), dynstr.len()).unwrap();
    let mut img: Vec<u8> = vec![0u8; plan.image_len];
    let mut parts: Ghost<Seq<Part>> = Ghost(Seq::empty());
    proof {
        assert(img@ =~= overlay(l.image_len, parts@));
    }
    proof {
        lemma_layout(mc@);
        lemma_head_len(l, format.format_version);
    }
    let front: Vec<u8> = build_head(Ghost(l), &plan, format.format_version);
    let entries: Vec<u8> = build_trampolines(mc);
    put_first(&mut img, &mut parts, mc, Ghost(l.image_len), plan.data_at, &front, &entries);
    put_slots(&mut img, Ghost(l.image_len), &mut parts, mc, Ghost(l), &plan);
    put_last(&mut img, &mut parts, mc, Ghost(l), &plan, &names, &dynstr);
    proof {
        reveal(image_of);
    }
    Ok(img)
}

// ---- laws of the image

/// Whether the chain from symbol `from` comes to symbol `k`.
pub open spec fn reaches(chains: Seq<u32>, from: int, k: int) -> bool
    decreases from,
{
    if from == k {
        true
    } else if from <= 0 || from >= chains.len() || chains[from] >= from {
        false
    } else {
        reaches(chains, chains[from] as int, k)
    }
}

proof fn lemma_reaches_kept(chains: Seq<u32>, from: int, k: int, at: int, x: u32)
    requires
        0 <= from < at < chains.len(),
    ensures
        reaches(chains.update(at, x), from, k) == reaches(chains, from, k),
    decreases from,
{
    if from != k && from > 0 && chains[from] < from {
        lemma_reaches_kept(chains, chains[from] as int, k, at, x);
    }
}

proof fn lemma_hash_finds(mc: McView, n: int, m: int, j: int)
    requires
        0 <= m < n <= u32::MAX,
    ensures
        forall|b: int| 0 <= b < n ==> #[trigger] hash_tables(mc, n, m).0[b] <= m,
        0 <= j < m ==> reaches(
            hash_tables(mc, n, m).1,
            hash_tables(mc, n, m).0[bucket_of(mc, n, j)] as int,
            j + 1,
        ),
    decreases m,
{
    lemma_hash_tables_len(mc, n, m);
    if m > 0 {
        lemma_hash_finds(mc, n, m - 1, j);
        lemma_hash_tables_len(mc, n, m - 1);
        let (buckets, chains) = hash_tables(mc, n, m - 1);
        let b = bucket_of(mc, n, m - 1);
        assert(0 <= b < n);
        if 0 <= j < m - 1 {
            let c = bucket_of(mc, n, j);
            assert(0 <= c < n);
            assert(buckets[c] <= m - 1);
            lemma_reaches_kept(chains, buckets[c] as int, j + 1, m, buckets[b]);
        }
    }
}

/// The hash table finds every symbol: the chain of the bucket of its name
/// comes to it.
pub proof fn hash_finds_every_symbol(mc: McView, k: int)
    requires
        symbols(mc) < u32::MAX,
        0 <= k < symbols(mc),
    ensures
        ({
            let n = symbols(mc) + 1;
            let (buckets, chains) = hash_tables(mc, n, symbols(mc));
            reaches(chains, buckets[bucket_of(mc, n, k)] as int, k + 1)
        }),
{
    lemma_hash_finds(mc, symbols(mc) + 1, symbols(mc), k);
}

/// The symbols that the chain from symbol `from` meets, up to its end.
pub open spec fn walk(chains: Seq<u32>, from: int) -> Seq<int>
    decreases from,
{
    if from <= 0 || from >= chains.len() {
        seq![]
    } else if chains[from] >= from {
        seq![from]
    } else {
        seq![from] + walk(chains, chains[from] as int)
    }
}

/// Whether the chain from symbol `from` comes to 0, which ends it.
pub open spec fn ends(chains: Seq<u32>, from: int) -> bool
    decreases from,
{
    if from == 0 {
        true
    } else if from < 0 || from >= chains.len() || chains[from] >= from {
        false
    } else {
        ends(chains, chains[from] as int)
    }
}

proof fn lemma_walk_kept(chains: Seq<u32>, from: int, at: int, x: u32)
    requires
        0 <= from < at < chains.len(),
    ensures
        walk(chains.update(at, x), from) == walk(chains, from),
        ends(chains.update(at, x), from) == ends(chains, from),
    decreases from,
{
    if from > 0 && chains[from] < from {
        lemma_walk_kept(chains, chains[from] as int, at, x);
    }
}

proof fn lemma_walks(mc: McView, n: int, m: int, b: int)
    requires
        0 <= m < n <= u32::MAX,
        0 <= b < n,
    ensures
        ({
            let (buckets, chains) = hash_tables(mc, n, m);
            let w = walk(chains, buckets[b] as int);
            &&& buckets[b] <= m
            &&& ends(chains, buckets[b] as int)
            &&& forall|i: int, j: int| 0 <= i < j < w.len() ==> #[trigger] w[i] > #[trigger] w[j]
            &&& forall|k: int|
                #[trigger] w.contains(k) <==> 1 <= k <= m && bucket_of(mc, n, k - 1) == b
        }),
    decreases m,
{
    lemma_hash_tables_len(mc, n, m);
    let (buckets, chains) = hash_tables(mc, n, m);
    let w = walk(chains, buckets[b] as int);
    if m > 0 {
        lemma_walks(mc, n, m - 1, b);
        lemma_hash_tables_len(mc, n, m - 1);
        let (old_buckets, old_chains) = hash_tables(mc, n, m - 1);
        let head = old_buckets[b] as int;
        let old_walk = walk(old_chains, head);
        let c = bucket_of(mc, n, m - 1);
        assert(0 <= c < n);
        lemma_walk_kept(old_chains, head, m, old_buckets[c]);
        if b == c {
            assert(chains[m] == head);
            assert(w =~= seq![m] + old_walk);
            assert forall|k: int| #[trigger]
                w.contains(k) <==> 1 <= k <= m && bucket_of(mc, n, k - 1) == b by {
                assert(old_walk.contains(k) <==> 1 <= k <= m - 1 && bucket_of(mc, n, k - 1) == b);
                assert(w[0] == m);
                if old_walk.contains(k) {
                    let i = choose|i: int| 0 <= i < old_walk.len() && old_walk[i] == k;
                    assert(w[i + 1] == k);
                }
                if w.contains(k) && k != m {
                    let i = choose|i: int| 0 <= i < w.len() && w[i] == k;
                    assert(old_walk[i - 1] == k);
                }
            }
            assert forall|i: int, j: int| 0 <= i < j < w.len() implies #[trigger] w[i]
                > #[trigger] w[j] by {
                assert(w[j] == old_walk[j - 1]);
                assert(old_walk.contains(old_walk[j - 1]));
                if i > 0 {
                    assert(w[i] == old_walk[i - 1]);
                }
            }
        } else {
            assert(w == old_walk);
            assert forall|k: int| #[trigger]
                w.contains(k) <==> 1 <= k <= m && bucket_of(mc, n, k - 1) == b by {
                assert(old_walk.contains(k) <==> 1 <= k <= m - 1 && bucket_of(mc, n, k - 1) == b);
            }
        }
    } else {
        assert(w =~= seq![]);
    }
}

/// The chain of a bucket meets each symbol of the bucket once, and no other,
/// and ends at 0.
pub proof fn hash_chains_are_exact(mc: McView, b: int)
    requires
        symbols(mc) < u32::MAX,
        0 <= b <= symbols(mc),
    ensures
        ({
            let n = symbols(mc) + 1;
            let (buckets, chains) = hash_tables(mc, n, symbols(mc));
            let w = walk(chains, buckets[b] as int);
            &&& ends(chains, buckets[b] as int)
            &&& w.no_duplicates()
            &&& forall|k: int|
                #[trigger] w.contains(k) <==> 1 <= k <= symbols(mc) && bucket_of(mc, n, k - 1) == b
        }),
{
    lemma_walks(mc, symbols(mc) + 1, symbols(mc), b);
}

/// Every word that the loader relocates lies in the writable segment.
pub proof fn loader_leaves_code_alone(mc: McView, k: int)
    requires
        0 <= k < mc.relocs.len(),
    ensures
        ({
            let l = layout_of(mc);
            &&& l.rx_end <= l.data_at
            &&& in_code(mc.relocs[k]) ==> l.data_at <= slot_at(mc, l, k) && slot_at(mc, l, k) + 8
                <= l.rw_end
            &&& in_data(mc.relocs[k]) ==> l.data_at <= l.data_at + mc.relocs[k].site
        }),
{
    lemma_layout(mc);
    lemma_slots(mc, k, k);
    lemma_slots(mc, k + 1, mc.relocs.len() as int);
    lemma_dynstr_grows(mc, 0, symbols(mc));
}

/// Whether the window of every address in the code lies in the code.
pub open spec fn windows_inside(mc: McView) -> bool {
    forall|k: int|
        0 <= k < mc.relocs.len() && in_code(#[trigger] mc.relocs[k]) ==> 2 <= mc.relocs[k].site
            && mc.relocs[k].site + 8 <= mc.code.len()
}

/// Whether `p` lies in the code or among the slots.
spec fn slot_or_window(mc: McView, l: Layout, p: Part) -> bool {
    ||| CODE_BASE <= p.at && p.at + p.bytes.len() <= CODE_BASE + mc.code.len()
    ||| l.got_start <= p.at && p.at + p.bytes.len() <= l.got_start + 8 * l.got_slots
}

proof fn lemma_slot_parts(mc: McView, n: int)
    requires
        0 <= n <= mc.relocs.len(),
        windows_inside(mc),
    ensures
        forall|j: int|
            0 <= j < slot_parts(mc, layout_of(mc), n).len() ==> slot_or_window(
                mc,
                layout_of(mc),
                #[trigger] slot_parts(mc, layout_of(mc), n)[j],
            ),
    decreases n,
{
    if n > 0 {
        let l = layout_of(mc);
        lemma_layout(mc);
        lemma_slot_parts(mc, n - 1);
        lemma_slots(mc, n - 1, n - 1);
        lemma_slots(mc, n, mc.relocs.len() as int);
        let before = slot_parts(mc, l, n - 1);
        let all = slot_parts(mc, l, n);
        let r = mc.relocs[n - 1];
        assert forall|j: int| 0 <= j < all.len() implies slot_or_window(mc, l, #[trigger] all[j]) by {
            if j < before.len() {
                assert(all[j] == before[j]);
            } else {
                assert(in_code(r));
                assert(slot_load(r.site as int, window_register(r.sym), slot_at(mc, l, n - 1)).len()
                    == 10);
            }
        }
    }
}

/// Whether `p` and `q` have no byte in common.
spec fn apart(p: Part, q: Part) -> bool {
    p.at + p.bytes.len() <= q.at || q.at + q.bytes.len() <= p.at
}

proof fn lemma_read_first(n: int, a: Seq<Part>, b: Seq<Part>, c: Seq<Part>, i: int)
    requires
        0 <= i < a.len(),
        0 <= a[i].at,
        a[i].at + a[i].bytes.len() <= n,
        forall|j: int| i < j < a.len() ==> apart(#[trigger] a[j], a[i]),
        forall|j: int| 0 <= j < b.len() ==> apart(#[trigger] b[j], a[i]),
        forall|j: int| 0 <= j < c.len() ==> apart(#[trigger] c[j], a[i]),
    ensures
        overlay(n, a + b + c).subrange(a[i].at, a[i].at + a[i].bytes.len()) == a[i].bytes,
{
    let parts = a + b + c;
    assert(parts[i] == a[i]);
    assert forall|j: int| i < j < parts.len() implies (#[trigger] parts[j]).at
        + parts[j].bytes.len() <= parts[i].at || parts[i].at + parts[i].bytes.len()
        <= parts[j].at by {
        if j < a.len() {
            assert(parts[j] == a[j]);
        } else if j < a.len() + b.len() {
            assert(parts[j] == b[j - a.len()]);
        } else {
            assert(parts[j] == c[j - a.len() - b.len()]);
        }
    }
    lemma_overlay_reads(n, parts, i);
}

proof fn lemma_read_last(n: int, a: Seq<Part>, b: Seq<Part>, c: Seq<Part>, i: int)
    requires
        0 <= i < c.len(),
        0 <= c[i].at,
        c[i].at + c[i].bytes.len() <= n,
        forall|j: int| i < j < c.len() ==> apart(#[trigger] c[j], c[i]),
    ensures
        overlay(n, a + b + c).subrange(c[i].at, c[i].at + c[i].bytes.len()) == c[i].bytes,
{
    let parts = a + b + c;
    let m = a.len() + b.len();
    assert(parts[m + i] == c[i]);
    assert forall|j: int| m + i < j < parts.len() implies (#[trigger] parts[j]).at
        + parts[j].bytes.len() <= parts[m + i].at || parts[m + i].at + parts[m + i].bytes.len()
        <= parts[j].at by {
        assert(parts[j] == c[j - m]);
    }
    lemma_overlay_reads(n, parts, m + i);
}

/// The last parts follow one another from the relocation records on.
proof fn lemma_last_parts(mc: McView)
    ensures
        ({
            let l = layout_of(mc);
            let c = last_parts(mc, l);
            let n = mc.relocs.len() as int;
            &&& c.len() == 7
            &&& c[0].bytes.len() == 24 * l.relas
            &&& c[1].bytes.len() == l.dynsym_size
            &&& c[2].bytes.len() == l.dynstr_size
            &&& c[3].bytes.len() == l.hash_size
            &&& c[4].bytes.len() == 176
            &&& c[5].bytes.len() == 576
            &&& forall|i: int| 0 <= i < 7 ==> l.rela_start <= (#[trigger] c[i]).at
            &&& forall|i: int|
                0 <= i < 7 ==> (#[trigger] c[i]).at + c[i].bytes.len() <= l.image_len
            &&& forall|i: int, j: int|
                0 <= i < j < 7 ==> (#[trigger] c[i]).at + c[i].bytes.len() <= (#[trigger] c[j]).at
        }),
{
    let l = layout_of(mc);
    let c = last_parts(mc, l);
    let n = mc.relocs.len() as int;
    lemma_layout(mc);
    lemma_sections_len(mc, l);
    lemma_section_names_len();
    lemma_dynamic_len(mc, l);
    lemma_dynsym_len(mc, l.data_at, symbols(mc));
    lemma_hash_len(mc);
    lemma_relas_len(mc, l, n);
    assert(c[0].at + c[0].bytes.len() <= c[1].at);
    assert(c[1].at + c[1].bytes.len() <= c[2].at);
    assert(c[2].at + c[2].bytes.len() <= c[3].at);
    assert(c[3].at + c[3].bytes.len() <= c[4].at);
    assert(c[4].at + c[4].bytes.len() <= c[5].at);
    assert(c[5].at + c[5].bytes.len() <= c[6].at);
    assert(c[6].at + c[6].bytes.len() <= l.image_len);
}

/// Where the windows lie in the code, the image holds its other pieces at
/// their places: headers, entries, data, relocation records, symbols, names,
/// hash table, dynamic table, section headers.
pub proof fn image_holds_its_pieces(mc: McView, version: u16)
    requires
        windows_inside(mc),
    ensures
        ({
            let l = layout_of(mc);
            let img = image_of(mc, version);
            let n = mc.relocs.len() as int;
            let entries_at = CODE_BASE + mc.code.len();
            &&& img.len() == l.image_len
            &&& img.subrange(0, CODE_BASE as int) == head(l, version)
            &&& img.subrange(entries_at, l.rx_end) == trampolines(mc, mc.exports.len() as int)
            &&& img.subrange(l.data_at, l.data_at + mc.data.len()) == mc.data
            &&& img.subrange(l.rela_start, l.rela_start + 24 * l.relas) == code_relas(mc, l, n)
                + data_relas(mc, l, n)
            &&& img.subrange(l.dynsym_start, l.dynsym_start + l.dynsym_size) == dynsym(
                mc,
                l.data_at,
                symbols(mc),
            )
            &&& img.subrange(l.dynstr_start, l.dynstr_start + l.dynstr_size) == dynstr(
                mc,
                symbols(mc),
            )
            &&& img.subrange(l.hash_start, l.hash_start + l.hash_size) == hash_bytes(mc)
            &&& img.subrange(l.dynamic_start, l.dynamic_start + 176) == dynamic(mc, l)
            &&& img.subrange(l.shoff, l.shoff + 576) == sections(mc, l)
        }),
{
    lemma_first_pieces(mc, version);
    lemma_last_pieces(mc, version);
}

proof fn lemma_first_pieces(mc: McView, version: u16)
    requires
        windows_inside(mc),
    ensures
        ({
            let l = layout_of(mc);
            let img = image_of(mc, version);
            let entries_at = CODE_BASE + mc.code.len();
            &&& img.subrange(0, CODE_BASE as int) == head(l, version)
            &&& img.subrange(entries_at, l.rx_end) == trampolines(mc, mc.exports.len() as int)
            &&& img.subrange(l.data_at, l.data_at + mc.data.len()) == mc.data
        }),
{
    let l = layout_of(mc);
    let n = mc.relocs.len() as int;
    let a = first_parts(mc, l, version);
    let b = slot_parts(mc, l, n);
    let c = last_parts(mc, l);
    reveal(image_of);
    lemma_layout(mc);
    lemma_head_len(l, version);
    lemma_trampolines_len(mc, mc.exports.len() as int);
    lemma_slot_parts(mc, n);
    lemma_last_parts(mc);
    assert(a[0].bytes == head(l, version) && a[0].at == 0);
    assert(a[1].bytes == mc.code && a[1].at == CODE_BASE);
    assert(a[2].bytes == trampolines(mc, mc.exports.len() as int) && a[2].at == CODE_BASE
        + mc.code.len());
    assert(a[3].bytes == mc.data && a[3].at == l.data_at);
    assert(a.len() == 4);
    assert forall|i: int, j: int| (i == 0 || i == 2 || i == 3) && 0 <= j < b.len() implies apart(
        #[trigger] b[j],
        #[trigger] a[i],
    ) by {
        assert(slot_or_window(mc, l, b[j]));
    }
    assert forall|i: int, j: int| 0 <= i < 4 && 0 <= j < c.len() implies apart(
        #[trigger] c[j],
        #[trigger] a[i],
    ) by {
        assert(l.rela_start <= c[j].at);
    }
    lemma_read_first(l.image_len, a, b, c, 0);
    lemma_read_first(l.image_len, a, b, c, 2);
    lemma_read_first(l.image_len, a, b, c, 3);
}

proof fn lemma_last_pieces(mc: McView, version: u16)
    ensures
        image_of(mc, version).len() == layout_of(mc).image_len,
        ({
            let l = layout_of(mc);
            let img = image_of(mc, version);
            let c = last_parts(mc, l);
            forall|i: int|
                0 <= i < 6 ==> img.subrange(
                    (#[trigger] c[i]).at,
                    c[i].at + c[i].bytes.len(),
                ) == c[i].bytes
        }),
        ({
            let l = layout_of(mc);
            let img = image_of(mc, version);
            let n = mc.relocs.len() as int;
            &&& img.subrange(l.rela_start, l.rela_start + 24 * l.relas) == code_relas(mc, l, n)
                + data_relas(mc, l, n)
            &&& img.subrange(l.dynsym_start, l.dynsym_start + l.dynsym_size) == dynsym(
                mc,
                l.data_at,
                symbols(mc),
            )
            &&& img.subrange(l.dynstr_start, l.dynstr_start + l.dynstr_size) == dynstr(
                mc,
                symbols(mc),
            )
            &&& img.subrange(l.hash_start, l.hash_start + l.hash_size) == hash_bytes(mc)
            &&& img.subrange(l.dynamic_start, l.dynamic_start + 176) == dynamic(mc, l)
            &&& img.subrange(l.shoff, l.shoff + 576) == sections(mc, l)
        }),
{
    let l = layout_of(mc);
    let n = mc.relocs.len() as int;
    let a = first_parts(mc, l, version);
    let b = slot_parts(mc, l, n);
    let c = last_parts(mc, l);
    let img = image_of(mc, version);
    reveal(image_of);
    lemma_layout(mc);
    lemma_last_parts(mc);
    lemma_overlay_len(l.image_len, a + b + c);
    assert forall|i: int| 0 <= i < 6 implies img.subrange(
        (#[trigger] c[i]).at,
        c[i].at + c[i].bytes.len(),
    ) == c[i].bytes by {
        assert forall|j: int| i < j < c.len() implies apart(#[trigger] c[j], c[i]) by {}
        lemma_read_last(l.image_len, a, b, c, i);
    }
    assert(c[0].at == l.rela_start && c[1].at == l.dynsym_start && c[2].at == l.dynstr_start);
    assert(c[3].at == l.hash_start && c[4].at == l.dynamic_start && c[5].at == l.shoff);
}

/// The window of relocation `k`, and the load that takes its place.
pub open spec fn window_part(mc: McView, l: Layout, k: int) -> Part {
    let r = mc.relocs[k];
    Part {
        at: CODE_BASE + r.site - 2,
        bytes: slot_load(r.site as int, window_register(r.sym), slot_at(mc, l, k)),
    }
}

/// The slot of relocation `k`.
pub open spec fn slot_part(mc: McView, l: Layout, k: int) -> Part {
    Part { at: slot_at(mc, l, k), bytes: le64(slot_value(mc, l, mc.relocs[k]) as u64) }
}

proof fn lemma_slot_reads(mc: McView, x: Seq<Part>, k: int, n: int)
    requires
        0 <= k < n <= mc.relocs.len(),
        windows_inside(mc),
        in_code(mc.relocs[k]),
        forall|j: int|
            k < j < mc.relocs.len() && in_code(#[trigger] mc.relocs[j]) ==> mc.relocs[j].site + 10
                <= mc.relocs[k].site || mc.relocs[k].site + 10 <= mc.relocs[j].site,
    ensures
        ({
            let l = layout_of(mc);
            let img = overlay(l.image_len, x + slot_parts(mc, l, n));
            let p = slot_part(mc, l, k);
            let q = window_part(mc, l, k);
            &&& img.subrange(p.at, p.at + 8) == p.bytes
            &&& img.subrange(q.at, q.at + 10) == q.bytes
        }),
    decreases n,
{
    let l = layout_of(mc);
    let p = slot_part(mc, l, k);
    let q = window_part(mc, l, k);
    let before = slot_parts(mc, l, n - 1);
    let r = mc.relocs[n - 1];
    lemma_layout(mc);
    lemma_slots(mc, k, k);
    lemma_slots(mc, k + 1, n);
    lemma_slots(mc, n, mc.relocs.len() as int);
    assert(q.bytes.len() == 10);
    assert(p.bytes.len() == 8);
    let more = if in_code(r) {
        seq![slot_part(mc, l, n - 1), window_part(mc, l, n - 1)]
    } else {
        seq![]
    };
    assert(x + slot_parts(mc, l, n) =~= (x + before) + more);
    if n == k + 1 {
        assert((x + before) + more =~= (x + before).push(p).push(q));
        lemma_overlay_last(l.image_len, (x + before).push(p), q);
        lemma_overlay_last(l.image_len, x + before, p);
        assert((x + before).push(p).push(q) =~= (x + before).push(p) + seq![q]);
        lemma_overlay_keeps(l.image_len, (x + before).push(p), seq![q], p.at, p.at + 8);
    } else {
        lemma_slot_reads(mc, x, k, n - 1);
        lemma_slots(mc, k + 1, n - 1);
        if in_code(r) {
            let u = window_part(mc, l, n - 1);
            assert(u.bytes.len() == 10);
            assert(slot_part(mc, l, n - 1).bytes.len() == 8);
            assert(mc.relocs[n - 1].site + 10 <= mc.relocs[k].site || mc.relocs[k].site + 10
                <= mc.relocs[n - 1].site);
            assert(more[0] == slot_part(mc, l, n - 1) && more[1] == u);
        }
        lemma_overlay_keeps(l.image_len, x + before, more, p.at, p.at + 8);
        lemma_overlay_keeps(l.image_len, x + before, more, q.at, q.at + 10);
    }
}

/// Where the windows lie in the code and keep clear of one another, the code
/// takes each address from its slot, and the slot holds it.
pub proof fn addresses_go_through_slots(mc: McView, version: u16, k: int)
    requires
        0 <= k < mc.relocs.len(),
        windows_inside(mc),
        in_code(mc.relocs[k]),
        forall|j: int|
            k < j < mc.relocs.len() && in_code(#[trigger] mc.relocs[j]) ==> mc.relocs[j].site + 10
                <= mc.relocs[k].site || mc.relocs[k].site + 10 <= mc.relocs[j].site,
    ensures
        ({
            let l = layout_of(mc);
            let img = image_of(mc, version);
            let p = slot_part(mc, l, k);
            let q = window_part(mc, l, k);
            &&& img.subrange(p.at, p.at + 8) == p.bytes
            &&& img.subrange(q.at, q.at + 10) == q.bytes
        }),
{
    let l = layout_of(mc);
    let n = mc.relocs.len() as int;
    let a = first_parts(mc, l, version);
    let c = last_parts(mc, l);
    let p = slot_part(mc, l, k);
    let q = window_part(mc, l, k);
    reveal(image_of);
    lemma_layout(mc);
    lemma_last_parts(mc);
    lemma_slots(mc, k, k);
    lemma_slots(mc, k + 1, n);
    lemma_slot_reads(mc, a, k, n);
    let x = a + slot_parts(mc, l, n);
    lemma_overlay_keeps(l.image_len, x, c, p.at, p.at + 8);
    lemma_overlay_keeps(l.image_len, x, c, q.at, q.at + 10);
}

} // verus!
