//! What the dynamic loader makes of a shared object: the addresses that its
//! slots, its records and its symbols hold, read from the image by way of its
//! own headers.
use crate::bytes::{
    le32, le64, lemma_read_piece, lemma_u32_at, lemma_u64_at, u32_at, u64_at, wrap32,
};
use crate::target::{McView, Reloc, Sym};
use crate::x86::executable::{code_place, data_place, header_at, holds, p_filesz, p_offset, p_vaddr};
use crate::x86::shlib::{
    addresses_go_through_slots, code_relas, code_slots, container_header, data_relas, data_slots,
    dynamic, dynsym, file_header, final_value, head, image_holds_its_pieces, image_of, in_code,
    in_data, layout_of, lemma_dynamic_len, lemma_dynsym_len, lemma_head_len, lemma_layout,
    lemma_relas_len, lemma_segment_len, lemma_slots, rela_record, reloc_ready, segment, segments,
    shared_ready, slot_at, slot_load, slot_value, sym_entry, sym_offset, sym_value, symbols, tagged,
    window_register, windows_inside, Layout, CODE_BASE,
};
use vstd::prelude::*;

verus! {

/// Tag number `j` of the dynamic table, which is segment 3.
pub open spec fn dyn_tag(img: Seq<u8>, j: int) -> u64 {
    u64_at(img, p_offset(img, 3) + 16 * j)
}

/// The value that goes with tag number `j`.
pub open spec fn dyn_value(img: Seq<u8>, j: int) -> int {
    u64_at(img, p_offset(img, 3) + 16 * j + 8) as int
}

/// Whether relocation record `j` of the table at `table` has the loader put
/// the load address plus `addend` into the word at `at`.
pub open spec fn relocates(img: Seq<u8>, table: int, j: int, at: int, addend: int) -> bool {
    &&& u64_at(img, table + 24 * j) == at
    &&& u64_at(img, table + 24 * j + 8) == 8
    &&& u64_at(img, table + 24 * j + 16) == addend
}

/// Whether the windows of `k` and of the relocations behind it keep clear of
/// one another.
pub open spec fn window_clear(mc: McView, k: int) -> bool {
    forall|j: int|
        k < j < mc.relocs.len() && in_code(#[trigger] mc.relocs[j]) ==> mc.relocs[j].site + 10
            <= mc.relocs[k].site || mc.relocs[k].site + 10 <= mc.relocs[j].site
}

/// Where `sym` is loaded, from the load address on: data in segment 1, code
/// from the end of the program headers on, the heap in segment 2.
pub open spec fn placed(mc: McView, img: Seq<u8>, sym: Sym, word: int) -> bool {
    match sym {
        Sym::HeapBase => word == p_vaddr(img, 2),
        Sym::Fn(_) | Sym::Import(_) => code_place(mc, sym) matches Some(i) && (i == usize::MAX
            || word == p_vaddr(img, 0) + header_at(img, 5) + i),
        Sym::String(_) | Sym::VtableOff(_) | Sym::ExcState(_) | Sym::Static(_) => data_place(
            mc,
            sym,
        ) matches Some(i) && word == p_vaddr(img, 1) + i,
        _ => true,
    }
}

// ---- reading the headers

proof fn lemma_segment_fields(
    kind: u32,
    flags: u32,
    off: int,
    vaddr: int,
    filesz: int,
    memsz: int,
)
    requires
        0 <= off <= u64::MAX,
        0 <= vaddr <= u64::MAX,
        0 <= filesz <= u64::MAX,
    ensures
        ({
            let h = segment(kind, flags, off, vaddr, filesz, memsz);
            &&& u32_at(h, 0) == kind
            &&& u32_at(h, 4) == flags
            &&& u64_at(h, 8) == off
            &&& u64_at(h, 16) == vaddr
            &&& u64_at(h, 32) == filesz
        }),
{
    let h = segment(kind, flags, off, vaddr, filesz, memsz);
    lemma_segment_len(kind, flags, off, vaddr, filesz, memsz);
    assert(h.subrange(0, 4) =~= le32(kind));
    assert(h.subrange(4, 8) =~= le32(flags));
    assert(h.subrange(8, 16) =~= le64(off as u64));
    assert(h.subrange(16, 24) =~= le64(vaddr as u64));
    assert(h.subrange(32, 40) =~= le64(filesz as u64));
    lemma_u32_at(h, 0, kind);
    lemma_u32_at(h, 4, flags);
    lemma_u64_at(h, 8, off as u64);
    lemma_u64_at(h, 16, vaddr as u64);
    lemma_u64_at(h, 32, filesz as u64);
}

proof fn lemma_table(l: Layout)
    ensures
        file_header(l).len() == 64,
        u64_at(file_header(l), 32) == 80,
{
    reveal(file_header);
    let h = file_header(l);
    assert(h.len() == 64);
    assert(h.subrange(32, 40) =~= le64(80));
    lemma_u64_at(h, 32, 80);
}

proof fn lemma_split(f: Seq<u8>, c: Seq<u8>, a: (Seq<u8>, Seq<u8>, Seq<u8>, Seq<u8>, Seq<u8>))
    requires
        f.len() == 64,
        c.len() == 16,
        a.0.len() == 56,
        a.1.len() == 56,
        a.2.len() == 56,
        a.3.len() == 56,
    ensures
        ({
            let h = f + c + (a.0 + a.1 + a.2 + a.3 + a.4);
            &&& h.subrange(0, 64) == f
            &&& h.subrange(80, 136) == a.0
            &&& h.subrange(136, 192) == a.1
            &&& h.subrange(192, 248) == a.2
            &&& h.subrange(248, 304) == a.3
        }),
{
    let h = f + c + (a.0 + a.1 + a.2 + a.3 + a.4);
    assert(h.subrange(0, 64) =~= f);
    assert(h.subrange(80, 136) =~= a.0);
    assert(h.subrange(136, 192) =~= a.1);
    assert(h.subrange(192, 248) =~= a.2);
    assert(h.subrange(248, 304) =~= a.3);
}

/// What the headers say, by the places of the layout.
pub open spec fn segments_are(l: Layout, img: Seq<u8>) -> bool {
    &&& header_at(img, 0) == 80
    &&& header_at(img, 1) == 136
    &&& header_at(img, 2) == 192
    &&& header_at(img, 3) == 248
    &&& header_at(img, 5) == CODE_BASE
    &&& u32_at(img, 80) == 1
    &&& u32_at(img, 84) == 5
    &&& u32_at(img, 136) == 1
    &&& u32_at(img, 140) == 6
    &&& u32_at(img, 192) == 1
    &&& u32_at(img, 196) == 6
    &&& u32_at(img, 248) == 2
    &&& p_offset(img, 0) == 0
    &&& p_vaddr(img, 0) == 0
    &&& p_filesz(img, 0) == l.rx_end
    &&& p_offset(img, 1) == l.data_at
    &&& p_vaddr(img, 1) == l.data_at
    &&& p_filesz(img, 1) == l.rw_end - l.data_at
    &&& p_vaddr(img, 2) == l.heap_vaddr
    &&& p_filesz(img, 2) == 0
    &&& p_offset(img, 3) == l.dynamic_start
    &&& p_vaddr(img, 3) == l.dynamic_start
}

proof fn lemma_read_header(img: Seq<u8>, at: int)
    requires
        0 <= at,
        at + 56 <= img.len(),
    ensures
        ({
            let h = img.subrange(at, at + 56);
            &&& u32_at(img, at) == u32_at(h, 0)
            &&& u32_at(img, at + 4) == u32_at(h, 4)
            &&& u64_at(img, at + 8) == u64_at(h, 8)
            &&& u64_at(img, at + 16) == u64_at(h, 16)
            &&& u64_at(img, at + 32) == u64_at(h, 32)
        }),
{
    lemma_read_piece(img, at, at + 56, 0);
    lemma_read_piece(img, at, at + 56, 4);
    lemma_read_piece(img, at, at + 56, 8);
    lemma_read_piece(img, at, at + 56, 16);
    lemma_read_piece(img, at, at + 56, 32);
}

proof fn lemma_head_pieces(l: Layout, version: u16)
    ensures
        ({
            let h = head(l, version);
            let rw = l.rw_end - l.data_at;
            &&& h.len() == CODE_BASE
            &&& h.subrange(0, 64) == file_header(l)
            &&& h.subrange(80, 136) == segment(1, 5, 0, 0, l.rx_end, l.rx_end)
            &&& h.subrange(136, 192) == segment(1, 6, l.data_at, l.data_at, rw, rw)
            &&& h.subrange(192, 248) == segment(1, 6, 0, l.heap_vaddr, 0, l.heap_memsz)
            &&& h.subrange(248, 304) == segment(2, 6, l.dynamic_start, l.dynamic_start, 176, 176)
        }),
{
    reveal(head);
    reveal(segments);
    let rw = l.rw_end - l.data_at;
    lemma_head_len(l, version);
    lemma_table(l);
    assert(container_header(version).len() == 16) by {
        reveal(container_header);
    }
    lemma_segment_len(1, 5, 0, 0, l.rx_end, l.rx_end);
    lemma_segment_len(1, 6, l.data_at, l.data_at, rw, rw);
    lemma_segment_len(1, 6, 0, l.heap_vaddr, 0, l.heap_memsz);
    lemma_segment_len(2, 6, l.dynamic_start, l.dynamic_start, 176, 176);
    lemma_split(
        file_header(l),
        container_header(version),
        (
            segment(1, 5, 0, 0, l.rx_end, l.rx_end),
            segment(1, 6, l.data_at, l.data_at, rw, rw),
            segment(1, 6, 0, l.heap_vaddr, 0, l.heap_memsz),
            segment(2, 6, l.dynamic_start, l.dynamic_start, 176, 176),
            segment(0x6474_E551, 6, 0, 0, 0, 0),
        ),
    );
}

#[verifier::spinoff_prover]
#[verifier::rlimit(40)]
proof fn lemma_segments_of(l: Layout, version: u16, img: Seq<u8>)
    requires
        img.len() >= CODE_BASE,
        img.subrange(0, CODE_BASE as int) == head(l, version),
        0 <= l.rx_end <= l.data_at <= l.rw_end <= l.heap_vaddr <= u64::MAX,
        0 <= l.dynamic_start <= u64::MAX,
    ensures
        segments_are(l, img),
{
    let rw = l.rw_end - l.data_at;
    let h = img.subrange(0, CODE_BASE as int);
    lemma_head_pieces(l, version);
    lemma_table(l);
    assert(img.subrange(0, 64) =~= h.subrange(0, 64));
    assert(img.subrange(80, 136) =~= h.subrange(80, 136));
    assert(img.subrange(136, 192) =~= h.subrange(136, 192));
    assert(img.subrange(192, 248) =~= h.subrange(192, 248));
    assert(img.subrange(248, 304) =~= h.subrange(248, 304));
    lemma_read_piece(img, 0, 64, 32);
    lemma_segment_fields(1, 5, 0, 0, l.rx_end, l.rx_end);
    lemma_segment_fields(1, 6, l.data_at, l.data_at, rw, rw);
    lemma_segment_fields(1, 6, 0, l.heap_vaddr, 0, l.heap_memsz);
    lemma_segment_fields(2, 6, l.dynamic_start, l.dynamic_start, 176, 176);
    lemma_read_header(img, 80);
    lemma_read_header(img, 136);
    lemma_read_header(img, 192);
    lemma_read_header(img, 248);
    reveal(header_at);
    reveal(p_offset);
    reveal(p_vaddr);
    reveal(p_filesz);
    assert(header_at(img, 0) == 80 && header_at(img, 1) == 136 && header_at(img, 2) == 192
        && header_at(img, 3) == 248);
}

pub proof fn lemma_segments(mc: McView, version: u16)
    requires
        shared_ready(mc),
        windows_inside(mc),
    ensures
        segments_are(layout_of(mc), image_of(mc, version)),
        image_of(mc, version).len() == layout_of(mc).image_len,
{
    let l = layout_of(mc);
    image_holds_its_pieces(mc, version);
    lemma_layout(mc);
    crate::x86::shlib::lemma_entries_grow(mc, 0, mc.exports.len() as int);
    lemma_slots(mc, 0, mc.relocs.len() as int);
    lemma_segments_of(l, version, image_of(mc, version));
}

/// Segments 0 and 1 are loaded where they stand in the file: the code,
/// executable and never writable, and behind it what is writable.
pub proof fn segments_stand_still(mc: McView, version: u16)
    requires
        shared_ready(mc),
        windows_inside(mc),
    ensures
        ({
            let img = image_of(mc, version);
            &&& u32_at(img, header_at(img, 0)) == 1 && u32_at(img, header_at(img, 0) + 4) == 5
            &&& u32_at(img, header_at(img, 1)) == 1 && u32_at(img, header_at(img, 1) + 4) == 6
            &&& u32_at(img, header_at(img, 3)) == 2
            &&& p_offset(img, 0) == 0 && p_vaddr(img, 0) == 0
            &&& p_offset(img, 1) == p_vaddr(img, 1)
            &&& p_offset(img, 3) == p_vaddr(img, 3)
            &&& p_filesz(img, 0) <= p_vaddr(img, 1)
            &&& p_vaddr(img, 1) + p_filesz(img, 1) <= p_vaddr(img, 2)
            &&& forall|i: int|
                0 <= i < mc.data.len() ==> holds(img, 1, p_vaddr(img, 1) + i) && #[trigger] img[
                p_offset(img, 1) + i] == mc.data[i]
        }),
{
    let l = layout_of(mc);
    let img = image_of(mc, version);
    lemma_segments(mc, version);
    image_holds_its_pieces(mc, version);
    lemma_layout(mc);
    assert forall|i: int| 0 <= i < mc.data.len() implies holds(img, 1, p_vaddr(img, 1) + i)
        && #[trigger] img[p_offset(img, 1) + i] == mc.data[i] by {
        assert(img.subrange(l.data_at, l.data_at + mc.data.len())[i] == mc.data[i]);
    }
}

// ---- reading the dynamic table

proof fn lemma_tagged(tag: u64, value: int)
    requires
        0 <= value <= u64::MAX,
    ensures
        tagged(tag, value).len() == 16,
        u64_at(tagged(tag, value), 0) == tag,
        u64_at(tagged(tag, value), 8) == value,
{
    let t = tagged(tag, value);
    assert(t.subrange(0, 8) =~= le64(tag));
    assert(t.subrange(8, 16) =~= le64(value as u64));
    lemma_u64_at(t, 0, tag);
    lemma_u64_at(t, 8, value as u64);
}

proof fn lemma_eleven(
    a: (Seq<u8>, Seq<u8>, Seq<u8>, Seq<u8>, Seq<u8>, Seq<u8>),
    b: (Seq<u8>, Seq<u8>, Seq<u8>, Seq<u8>, Seq<u8>),
)
    requires
        a.0.len() == 16 && a.1.len() == 16 && a.2.len() == 16 && a.3.len() == 16,
        a.4.len() == 16 && a.5.len() == 16 && b.0.len() == 16 && b.1.len() == 16,
        b.2.len() == 16 && b.3.len() == 16 && b.4.len() == 16,
    ensures
        ({
            let d = a.0 + a.1 + a.2 + a.3 + a.4 + a.5 + b.0 + b.1 + b.2 + b.3 + b.4;
            &&& d.subrange(0, 16) == a.0
            &&& d.subrange(16, 32) == a.1
            &&& d.subrange(32, 48) == a.2
            &&& d.subrange(80, 96) == a.5
            &&& d.subrange(96, 112) == b.0
            &&& d.subrange(144, 160) == b.3
        }),
{
    let d = a.0 + a.1 + a.2 + a.3 + a.4 + a.5 + b.0 + b.1 + b.2 + b.3 + b.4;
    assert(d.subrange(0, 16) =~= a.0);
    assert(d.subrange(16, 32) =~= a.1);
    assert(d.subrange(32, 48) =~= a.2);
    assert(d.subrange(80, 96) =~= a.5);
    assert(d.subrange(96, 112) =~= b.0);
    assert(d.subrange(144, 160) =~= b.3);
}

proof fn lemma_tagged_len(tag: u64, value: int)
    ensures
        tagged(tag, value).len() == 16,
{
}

proof fn lemma_dynamic_pieces(mc: McView, l: Layout)
    ensures
        dynamic(mc, l).len() == 176,
        dynamic(mc, l).subrange(0, 16) == tagged(4, l.hash_start),
        dynamic(mc, l).subrange(16, 32) == tagged(5, l.dynstr_start),
        dynamic(mc, l).subrange(32, 48) == tagged(6, l.dynsym_start),
        dynamic(mc, l).subrange(80, 96) == tagged(7, l.rela_start),
        dynamic(mc, l).subrange(96, 112) == tagged(8, l.relas * 24),
        dynamic(mc, l).subrange(144, 160) == tagged(12, crate::x86::shlib::init_vaddr(mc)),
{
    reveal(dynamic);
    let init = crate::x86::shlib::init_vaddr(mc);
    lemma_dynamic_len(mc, l);
    lemma_tagged_len(4, l.hash_start);
    lemma_tagged_len(5, l.dynstr_start);
    lemma_tagged_len(6, l.dynsym_start);
    lemma_tagged_len(10, l.dynstr_size);
    lemma_tagged_len(11, 24);
    lemma_tagged_len(7, l.rela_start);
    lemma_tagged_len(8, l.relas * 24);
    lemma_tagged_len(9, 24);
    lemma_tagged_len(19, l.relas);
    lemma_tagged_len(12, init);
    lemma_tagged_len(0, 0);
    lemma_eleven(
        (
            tagged(4, l.hash_start),
            tagged(5, l.dynstr_start),
            tagged(6, l.dynsym_start),
            tagged(10, l.dynstr_size),
            tagged(11, 24),
            tagged(7, l.rela_start),
        ),
        (
            tagged(8, l.relas * 24),
            tagged(9, 24),
            tagged(19, l.relas),
            tagged(12, init),
            tagged(0, 0),
        ),
    );
}

proof fn lemma_entry(img: Seq<u8>, at: int, d: Seq<u8>, j: int, tag: u64, value: int)
    requires
        0 <= at,
        0 <= j < 11,
        d.len() == 176,
        at + 176 <= img.len(),
        img.subrange(at, at + 176) == d,
        d.subrange(16 * j, 16 * j + 16) == tagged(tag, value),
        0 <= value <= u64::MAX,
    ensures
        u64_at(img, at + 16 * j) == tag,
        u64_at(img, at + 16 * j + 8) == value,
{
    lemma_tagged(tag, value);
    lemma_read_piece(img, at, at + 176, 16 * j);
    lemma_read_piece(img, at, at + 176, 16 * j + 8);
    lemma_read_piece(d, 16 * j, 16 * j + 16, 0);
    lemma_read_piece(d, 16 * j, 16 * j + 16, 8);
}

/// The dynamic table leads to the hash table, the names, the symbols and the
/// relocation records, and to the function that runs at load time.
pub proof fn lemma_dynamic(mc: McView, version: u16)
    requires
        shared_ready(mc),
        windows_inside(mc),
    ensures
        ({
            let l = layout_of(mc);
            let img = image_of(mc, version);
            &&& dyn_tag(img, 0) == 4 && dyn_value(img, 0) == l.hash_start
            &&& dyn_tag(img, 1) == 5 && dyn_value(img, 1) == l.dynstr_start
            &&& dyn_tag(img, 2) == 6 && dyn_value(img, 2) == l.dynsym_start
            &&& dyn_tag(img, 5) == 7 && dyn_value(img, 5) == l.rela_start
            &&& dyn_tag(img, 6) == 8 && dyn_value(img, 6) == 24 * l.relas
            &&& dyn_tag(img, 9) == 12 && dyn_value(img, 9) == crate::x86::shlib::init_vaddr(mc)
        }),
{
    let l = layout_of(mc);
    let img = image_of(mc, version);
    let d = dynamic(mc, l);
    let at = l.dynamic_start;
    lemma_segments(mc, version);
    image_holds_its_pieces(mc, version);
    lemma_layout(mc);
    crate::x86::shlib::lemma_entries_grow(mc, 0, mc.exports.len() as int);
    lemma_slots(mc, 0, mc.relocs.len() as int);
    lemma_dynamic_pieces(mc, l);
    lemma_entry(img, at, d, 0, 4, l.hash_start);
    lemma_entry(img, at, d, 1, 5, l.dynstr_start);
    lemma_entry(img, at, d, 2, 6, l.dynsym_start);
    lemma_entry(img, at, d, 5, 7, l.rela_start);
    lemma_entry(img, at, d, 6, 8, l.relas * 24);
    lemma_entry(img, at, d, 9, 12, crate::x86::shlib::init_vaddr(mc));
}

/// The function that runs at load time is the one that the program names.
pub proof fn init_runs_at_load(mc: McView, version: u16)
    requires
        shared_ready(mc),
        windows_inside(mc),
    ensures
        ({
            let img = image_of(mc, version);
            &&& dyn_tag(img, 9) == 12
            &&& mc.init_fn matches Some(i) ==> (i < mc.fn_bases.len() ==> dyn_value(img, 9)
                == p_vaddr(img, 0) + header_at(img, 5) + mc.fn_bases[i as int])
            &&& mc.init_fn is None ==> dyn_value(img, 9) == 0
        }),
{
    lemma_dynamic(mc, version);
    lemma_segments(mc, version);
}

// ---- relocation records

proof fn lemma_record(at: int, value: int)
    requires
        0 <= at <= u64::MAX,
        0 <= value <= u64::MAX,
    ensures
        rela_record(at, value).len() == 24,
        u64_at(rela_record(at, value), 0) == at,
        u64_at(rela_record(at, value), 8) == 8,
        u64_at(rela_record(at, value), 16) == value,
{
    let t = rela_record(at, value);
    assert(t.subrange(0, 8) =~= le64(at as u64));
    assert(t.subrange(8, 16) =~= le64(8));
    assert(t.subrange(16, 24) =~= le64(value as u64));
    lemma_u64_at(t, 0, at as u64);
    lemma_u64_at(t, 8, 8);
    lemma_u64_at(t, 16, value as u64);
}

proof fn lemma_code_record(mc: McView, l: Layout, k: int, n: int)
    requires
        0 <= k < n <= mc.relocs.len(),
        in_code(mc.relocs[k]),
    ensures
        code_slots(mc, k) < code_slots(mc, n),
        code_relas(mc, l, n).subrange(24 * code_slots(mc, k), 24 * code_slots(mc, k) + 24)
            == rela_record(slot_at(mc, l, k), slot_value(mc, l, mc.relocs[k])),
    decreases n,
{
    let j = code_slots(mc, k);
    lemma_relas_len(mc, l, n - 1);
    lemma_relas_len(mc, l, n);
    lemma_slots(mc, k, k);
    if n == k + 1 {
        assert(code_relas(mc, l, n).subrange(24 * j, 24 * j + 24) =~= rela_record(
            slot_at(mc, l, k),
            slot_value(mc, l, mc.relocs[k]),
        ));
    } else {
        lemma_code_record(mc, l, k, n - 1);
        assert(code_relas(mc, l, n).subrange(24 * j, 24 * j + 24) =~= code_relas(
            mc,
            l,
            n - 1,
        ).subrange(24 * j, 24 * j + 24));
    }
}

proof fn lemma_data_record(mc: McView, l: Layout, k: int, n: int)
    requires
        0 <= k < n <= mc.relocs.len(),
        in_data(mc.relocs[k]),
    ensures
        data_slots(mc, k) < data_slots(mc, n),
        data_relas(mc, l, n).subrange(24 * data_slots(mc, k), 24 * data_slots(mc, k) + 24)
            == rela_record(l.data_at + mc.relocs[k].site, slot_value(mc, l, mc.relocs[k])),
    decreases n,
{
    let j = data_slots(mc, k);
    lemma_relas_len(mc, l, n - 1);
    lemma_relas_len(mc, l, n);
    lemma_slots(mc, k, k);
    if n == k + 1 {
        assert(data_relas(mc, l, n).subrange(24 * j, 24 * j + 24) =~= rela_record(
            l.data_at + mc.relocs[k].site,
            slot_value(mc, l, mc.relocs[k]),
        ));
    } else {
        lemma_data_record(mc, l, k, n - 1);
        assert(data_relas(mc, l, n).subrange(24 * j, 24 * j + 24) =~= data_relas(
            mc,
            l,
            n - 1,
        ).subrange(24 * j, 24 * j + 24));
    }
}

/// Record `j` of a table that stands in the image.
proof fn lemma_record_reads(
    img: Seq<u8>,
    table: int,
    records: Seq<u8>,
    j: int,
    at: int,
    value: int,
)
    requires
        0 <= table,
        0 <= j,
        24 * j + 24 <= records.len(),
        table + records.len() <= img.len(),
        img.subrange(table, table + records.len()) == records,
        records.subrange(24 * j, 24 * j + 24) == rela_record(at, value),
        0 <= at <= u64::MAX,
        0 <= value <= u64::MAX,
    ensures
        relocates(img, table, j, at, value),
{
    let n = records.len() as int;
    lemma_record(at, value);
    lemma_read_piece(img, table, table + n, 24 * j);
    lemma_read_piece(img, table, table + n, 24 * j + 8);
    lemma_read_piece(img, table, table + n, 24 * j + 16);
    lemma_read_piece(records, 24 * j, 24 * j + 24, 0);
    lemma_read_piece(records, 24 * j, 24 * j + 24, 8);
    lemma_read_piece(records, 24 * j, 24 * j + 24, 16);
}

/// Values by the places of the layout.
proof fn lemma_placed(mc: McView, img: Seq<u8>, r: Reloc)
    requires
        segments_are(layout_of(mc), img),
        in_code(r) || in_data(r),
        in_code(r) ==> !(r.sym is Fn),
        in_data(r) ==> r.sym is Fn || r.sym is HeapBase,
        r.sym matches Sym::Static(i) ==> i < mc.static_offsets.len(),
        r.sym matches Sym::Import(i) ==> i < mc.import_bases.len(),
        r.sym matches Sym::Fn(i) ==> i < mc.fn_bases.len(),
    ensures
        placed(mc, img, r.sym, slot_value(mc, layout_of(mc), r)),
{
}

/// The code takes every address from a slot in the writable segment, by a
/// load relative to its own end. The slot holds where the symbol is loaded,
/// and a record has the loader add the load address to just that. `r.0` is
/// the slot, `r.1` the number of the record.
#[verifier::spinoff_prover]
#[verifier::rlimit(60)]
pub proof fn code_addresses_are_where_things_are_loaded(
    mc: McView,
    version: u16,
    k: int,
) -> (r: (int, int))
    requires
        shared_ready(mc),
        windows_inside(mc),
        0 <= k < mc.relocs.len(),
        in_code(mc.relocs[k]),
        window_clear(mc, k),
        !(mc.relocs[k].sym is Fn),
        mc.relocs[k].sym matches Sym::Static(i) ==> i < mc.static_offsets.len(),
        mc.relocs[k].sym matches Sym::Import(i) ==> i < mc.import_bases.len(),
    ensures
        ({
            let img = image_of(mc, version);
            let load = header_at(img, 5) + mc.relocs[k].site - 2;
            let word = u64_at(img, r.0) as int;
            &&& img[load + 1] == 0x8B
            &&& img[load + 2] % 8 == 5 && img[load + 2] < 64
            &&& u32_at(img, load + 3) == wrap32(r.0 - (load + 7))
            &&& p_vaddr(img, 1) <= r.0 && r.0 + 8 <= p_vaddr(img, 1) + p_filesz(img, 1)
            &&& placed(mc, img, mc.relocs[k].sym, word)
            &&& dyn_tag(img, 5) == 7 && dyn_tag(img, 6) == 8
            &&& 0 <= r.1 && 24 * r.1 + 24 <= dyn_value(img, 6)
            &&& relocates(img, dyn_value(img, 5), r.1, r.0, word)
        }),
{
    let l = layout_of(mc);
    let img = image_of(mc, version);
    let n = mc.relocs.len() as int;
    let rel = mc.relocs[k];
    let s = slot_at(mc, l, k);
    let j = code_slots(mc, k);
    let value = slot_value(mc, l, rel);
    lemma_segments(mc, version);
    lemma_dynamic(mc, version);
    image_holds_its_pieces(mc, version);
    lemma_layout(mc);
    crate::x86::shlib::lemma_entries_grow(mc, 0, mc.exports.len() as int);
    lemma_slots(mc, k, k);
    lemma_slots(mc, k + 1, n);
    lemma_code_record(mc, l, k, n);
    lemma_relas_len(mc, l, n);
    addresses_go_through_slots(mc, version, k);
    lemma_placed(mc, img, rel);
    assert(reloc_ready(mc, l, rel));
    lemma_slot_word(img, s, value);
    let records = code_relas(mc, l, n) + data_relas(mc, l, n);
    assert(records.subrange(24 * j, 24 * j + 24) =~= code_relas(mc, l, n).subrange(
        24 * j,
        24 * j + 24,
    ));
    assert(l.dynsym_size >= 0 && l.dynstr_size >= 0 && l.hash_size >= 0);
    lemma_record_reads(img, l.rela_start, records, j, s, value);
    lemma_load_bytes(img, rel.site as int, window_register(rel.sym), s);
    (s, j)
}

proof fn lemma_slot_word(img: Seq<u8>, s: int, value: int)
    requires
        0 <= s,
        s + 8 <= img.len(),
        0 <= value <= u64::MAX,
        img.subrange(s, s + 8) == le64(value as u64),
    ensures
        u64_at(img, s) == value,
{
    lemma_u64_at(img, s, value as u64);
}

proof fn lemma_load_bytes(img: Seq<u8>, site: int, reg: int, slot: int)
    requires
        2 <= site,
        CODE_BASE + site + 8 <= img.len(),
        0 <= reg < 16,
        img.subrange(CODE_BASE + site - 2, CODE_BASE + site + 8) == slot_load(site, reg, slot),
    ensures
        ({
            let load = CODE_BASE + site - 2;
            &&& img[load + 1] == 0x8B
            &&& img[load + 2] % 8 == 5 && img[load + 2] < 64
            &&& u32_at(img, load + 3) == wrap32(slot - (load + 7))
        }),
{
    let load = CODE_BASE + site - 2;
    let w = img.subrange(load, load + 10);
    let d = wrap32(slot - (CODE_BASE + site + 5));
    assert(w[1] == img[load + 1] && w[2] == img[load + 2]);
    assert(w.subrange(3, 7) =~= le32(d));
    assert(img.subrange(load + 3, load + 7) =~= w.subrange(3, 7));
    lemma_u32_at(img, load + 3, d);
    assert(slot - (CODE_BASE + site + 5) == slot - (load + 7));
}

/// A word of the data that is an address has a record that has the loader
/// put the load address plus the place of the symbol there. `j` is the
/// number of the record.
#[verifier::spinoff_prover]
#[verifier::rlimit(60)]
pub proof fn data_addresses_are_where_things_are_loaded(mc: McView, version: u16, k: int) -> (j:
    int)
    requires
        shared_ready(mc),
        windows_inside(mc),
        0 <= k < mc.relocs.len(),
        in_data(mc.relocs[k]),
    ensures
        ({
            let img = image_of(mc, version);
            let r = mc.relocs[k];
            let word = u64_at(img, dyn_value(img, 5) + 24 * j + 16) as int;
            &&& dyn_tag(img, 5) == 7 && dyn_tag(img, 6) == 8
            &&& 0 <= j && 24 * j + 24 <= dyn_value(img, 6)
            &&& placed(mc, img, r.sym, word)
            &&& relocates(img, dyn_value(img, 5), j, p_vaddr(img, 1) + r.site, word)
        }),
{
    let l = layout_of(mc);
    let img = image_of(mc, version);
    let n = mc.relocs.len() as int;
    let rel = mc.relocs[k];
    let value = slot_value(mc, l, rel);
    lemma_segments(mc, version);
    lemma_dynamic(mc, version);
    image_holds_its_pieces(mc, version);
    lemma_layout(mc);
    crate::x86::shlib::lemma_entries_grow(mc, 0, mc.exports.len() as int);
    lemma_slots(mc, k, k);
    lemma_slots(mc, k + 1, n);
    lemma_data_record(mc, l, k, n);
    lemma_relas_len(mc, l, n);
    assert(reloc_ready(mc, l, rel));
    assert(final_value(mc, l, rel) is Some);
    lemma_placed(mc, img, rel);
    let i = data_slots(mc, k);
    let j = l.got_slots + i;
    let records = code_relas(mc, l, n) + data_relas(mc, l, n);
    assert(records.subrange(24 * j, 24 * j + 24) =~= data_relas(mc, l, n).subrange(
        24 * i,
        24 * i + 24,
    ));
    assert(l.dynsym_size >= 0 && l.dynstr_size >= 0 && l.hash_size >= 0);
    lemma_record_reads(img, l.rela_start, records, j, l.data_at + rel.site, value);
    j
}

// ---- symbols

/// Value of dynamic symbol `k`, the null symbol not counted.
pub open spec fn st_value(img: Seq<u8>, k: int) -> int {
    u64_at(img, dyn_value(img, 2) + 24 * (k + 1) + 8) as int
}

pub proof fn lemma_symbol(mc: McView, data_at: int, k: int, n: int)
    requires
        0 <= k < n,
    ensures
        dynsym(mc, data_at, n).subrange(24 * (k + 1), 24 * (k + 1) + 24) == sym_entry(
            mc,
            data_at,
            k,
        ),
        sym_entry(mc, data_at, k).len() == 24,
    decreases n,
{
    let at = 24 * (k + 1);
    lemma_dynsym_len(mc, data_at, n - 1);
    lemma_dynsym_len(mc, data_at, n);
    if n == k + 1 {
        assert(dynsym(mc, data_at, n).subrange(at, at + 24) =~= sym_entry(mc, data_at, k));
    } else {
        lemma_symbol(mc, data_at, k, n - 1);
        assert(dynsym(mc, data_at, n).subrange(at, at + 24) =~= dynsym(
            mc,
            data_at,
            n - 1,
        ).subrange(at, at + 24));
    }
}

pub proof fn lemma_symbol_value(mc: McView, version: u16, k: int)
    requires
        shared_ready(mc),
        windows_inside(mc),
        0 <= k < symbols(mc),
        0 <= sym_value(mc, layout_of(mc).data_at, k) <= u64::MAX,
    ensures
        dyn_tag(image_of(mc, version), 2) == 6,
        st_value(image_of(mc, version), k) == sym_value(mc, layout_of(mc).data_at, k),
{
    let l = layout_of(mc);
    let img = image_of(mc, version);
    let n = symbols(mc);
    let v = sym_value(mc, l.data_at, k) as u64;
    lemma_dynamic(mc, version);
    lemma_segments(mc, version);
    image_holds_its_pieces(mc, version);
    lemma_layout(mc);
    crate::x86::shlib::lemma_entries_grow(mc, 0, mc.exports.len() as int);
    lemma_slots(mc, 0, mc.relocs.len() as int);
    lemma_symbol(mc, l.data_at, k, n);
    lemma_entry_value(mc, l.data_at, k);
    lemma_dynsym_len(mc, l.data_at, n);
    assert(l.dynstr_size >= 0 && l.hash_size >= 0);
    lemma_symbol_reads(
        img,
        l.dynsym_start,
        dynsym(mc, l.data_at, n),
        24 * (k + 1),
        sym_entry(mc, l.data_at, k),
        v,
    );
}

proof fn lemma_entry_value(mc: McView, data_at: int, k: int)
    ensures
        sym_entry(mc, data_at, k).subrange(8, 16) == le64(sym_value(mc, data_at, k) as u64),
{
    assert(sym_entry(mc, data_at, k).subrange(8, 16) =~= le64(sym_value(mc, data_at, k) as u64));
}

proof fn lemma_symbol_reads(img: Seq<u8>, start: int, d: Seq<u8>, at: int, e: Seq<u8>, v: u64)
    requires
        0 <= start,
        0 <= at,
        at + 24 <= d.len(),
        start + d.len() <= img.len(),
        img.subrange(start, start + d.len()) == d,
        d.subrange(at, at + 24) == e,
        e.len() == 24,
        e.subrange(8, 16) == le64(v),
    ensures
        u64_at(img, start + at + 8) == v,
{
    lemma_u64_at(e, 8, v);
    lemma_read_piece(d, at, at + 24, 8);
    lemma_read_piece(img, start, start + d.len(), at + 8);
}

/// The symbol of a vtable row or of a static field is where its place in the
/// data is loaded.
pub proof fn data_symbols_are_where_things_are_loaded(mc: McView, version: u16, i: int)
    requires
        shared_ready(mc),
        windows_inside(mc),
    ensures
        ({
            let img = image_of(mc, version);
            let e = mc.exports.len() as int;
            let v = mc.vtable_names.len() as int;
            &&& 0 <= i < v && i < mc.vtable_offsets.len() ==> st_value(img, e + i) == p_vaddr(
                img,
                1,
            ) + mc.vtable_offsets[i]
            &&& 0 <= i < mc.static_names.len() && i < mc.static_offsets.len() ==> st_value(
                img,
                e + v + i,
            ) == p_vaddr(img, 1) + mc.static_offsets[i]
        }),
{
    let l = layout_of(mc);
    let e = mc.exports.len() as int;
    let v = mc.vtable_names.len() as int;
    lemma_segments(mc, version);
    lemma_layout(mc);
    crate::x86::shlib::lemma_entries_grow(mc, 0, mc.exports.len() as int);
    if 0 <= i < v && i < mc.vtable_offsets.len() {
        assert(l.data_at + sym_offset(mc, e + i) <= usize::MAX);
        lemma_symbol_value(mc, version, e + i);
    }
    if 0 <= i < mc.static_names.len() && i < mc.static_offsets.len() {
        assert(l.data_at + sym_offset(mc, e + v + i) <= usize::MAX);
        lemma_symbol_value(mc, version, e + v + i);
    }
}

/// The symbol of an export without a receiver is its body.
pub proof fn static_exports_are_their_bodies(mc: McView, version: u16, i: int)
    requires
        shared_ready(mc),
        windows_inside(mc),
        0 <= i < mc.exports.len(),
        i < mc.export_takes_receiver.len(),
        !mc.export_takes_receiver[i],
    ensures
        ({
            let img = image_of(mc, version);
            st_value(img, i) == p_vaddr(img, 0) + header_at(img, 5)
                + mc.fn_bases[mc.exports[i].1 as int]
        }),
{
    lemma_segments(mc, version);
    assert(mc.exports[i].1 < mc.fn_bases.len());
    lemma_symbol_value(mc, version, i);
}

/// Code that takes the address of a vtable row gets the value of the symbol
/// of that row, and one of a static field the value of its symbol.
pub proof fn addresses_agree_with_symbols(mc: McView, version: u16, k: int, i: int) -> (slot: int)
    requires
        shared_ready(mc),
        windows_inside(mc),
        0 <= k < mc.relocs.len(),
        in_code(mc.relocs[k]),
        window_clear(mc, k),
        0 <= i,
        (mc.relocs[k].sym matches Sym::VtableOff(off) && i < mc.vtable_names.len() && i
            < mc.vtable_offsets.len() && off == mc.vtable_offsets[i]) || (
        mc.relocs[k].sym matches Sym::Static(j) && i == j && i < mc.static_names.len() && i
            < mc.static_offsets.len()),
    ensures
        ({
            let img = image_of(mc, version);
            let e = mc.exports.len() as int;
            let load = header_at(img, 5) + mc.relocs[k].site - 2;
            &&& u32_at(img, load + 3) == wrap32(slot - (load + 7))
            &&& u64_at(img, slot) == st_value(
                img,
                if mc.relocs[k].sym is Static {
                    e + mc.vtable_names.len() + i
                } else {
                    e + i
                },
            )
        }),
{
    data_symbols_are_where_things_are_loaded(mc, version, i);
    code_addresses_are_where_things_are_loaded(mc, version, k).0
}

} // verus!
