//! What a loader makes of an executable: the bytes of the image as its own
//! headers place them, and the addresses that the code and the data hold.
use crate::bytes::{
    le32, le64, lemma_pieces, lemma_read_piece, lemma_u32_at, lemma_u64_at, u32_at, u64_at, wrap32,
};
use crate::container::ContainerFormat;
use crate::target::{McView, Reloc, RelocKind, Section, Sym};
use crate::x86::elf::{
    address, apart, elf_header, front, image_holds_its_pieces, image_of, image_ready, layout_of,
    lemma_elf_header_len, lemma_front_len, lemma_layout, lemma_program_header_len,
    lemma_relocated_len, lemma_section_headers_len, preamble_bytes, program_header, relocated,
    relocations_hold, section_headers, shstrtab, strtab, symtab, Layout, BASE_VADDR, CODE_OFF,
};
use vstd::prelude::*;

verus! {

/// Where the table of program headers starts.
#[verifier::opaque]
pub open spec fn header_at(img: Seq<u8>, k: int) -> int {
    u64_at(img, 32) + 56 * k
}

/// File offset of segment `k`.
#[verifier::opaque]
pub open spec fn p_offset(img: Seq<u8>, k: int) -> int {
    u64_at(img, header_at(img, k) + 8) as int
}

/// Address of segment `k`.
#[verifier::opaque]
pub open spec fn p_vaddr(img: Seq<u8>, k: int) -> int {
    u64_at(img, header_at(img, k) + 16) as int
}

/// Bytes of segment `k` in the file.
#[verifier::opaque]
pub open spec fn p_filesz(img: Seq<u8>, k: int) -> int {
    u64_at(img, header_at(img, k) + 32) as int
}

/// Bytes of segment `k` in memory.
#[verifier::opaque]
pub open spec fn p_memsz(img: Seq<u8>, k: int) -> int {
    u64_at(img, header_at(img, k) + 40) as int
}

/// Whether segment `k` has the byte at address `a` from the file.
pub open spec fn holds(img: Seq<u8>, k: int, a: int) -> bool {
    p_vaddr(img, k) <= a < p_vaddr(img, k) + p_filesz(img, k)
}

/// The byte at address `a` of segment `k`, once it is loaded.
pub open spec fn loaded(img: Seq<u8>, k: int, a: int) -> u8 {
    img[p_offset(img, k) + (a - p_vaddr(img, k))]
}

/// The byte of the data that `sym` names.
pub open spec fn data_place(mc: McView, sym: Sym) -> Option<int> {
    match sym {
        Sym::String(off) => Some(off as int),
        Sym::VtableOff(off) => Some(off as int),
        Sym::ExcState(off) => Some(off as int),
        Sym::Static(i) => if i < mc.static_offsets.len() {
            Some(mc.static_offsets[i as int] as int)
        } else {
            None
        },
        Sym::ArgvRsp => match mc.helper_argv {
            Some(off) => if off + 8 == mc.data.len() {
                Some(off as int)
            } else {
                None
            },
            None => None,
        },
        _ => None,
    }
}

/// The byte of the code that `sym` names.
pub open spec fn code_place(mc: McView, sym: Sym) -> Option<usize> {
    match sym {
        Sym::Fn(i) => if i < mc.fn_bases.len() {
            Some(mc.fn_bases[i as int])
        } else {
            None
        },
        Sym::Import(i) => if i < mc.import_bases.len() {
            Some(mc.import_bases[i as int])
        } else {
            None
        },
        Sym::HelperItoa => mc.helper_itoa,
        Sym::HelperItoaErr => mc.helper_itoa_err,
        Sym::HelperScanInt => mc.helper_scan_int,
        Sym::HelperRetain => mc.helper_retain,
        Sym::HelperRelease => mc.helper_release,
        Sym::HelperAlloc => mc.helper_alloc,
        Sym::HelperExcEnter => mc.helper_exc_enter,
        Sym::HelperExcPop => mc.helper_exc_pop,
        Sym::HelperExcThrow => mc.helper_exc_throw,
        Sym::HelperExcRethrow => mc.helper_exc_rethrow,
        Sym::HelperExcLoad => mc.helper_exc_load,
        Sym::HelperExcClear => mc.helper_exc_clear,
        _ => None,
    }
}

/// Where the code starts in the file: behind the headers, and behind the
/// header of the tool chain where there is one.
pub open spec fn code_at(format: ContainerFormat, entry_preamble: bool) -> int {
    64 + 3 * 56 + if entry_preamble {
        format.preamble_len as int
    } else {
        0
    }
}

/// Where the bytes that `r` patches are in the file.
pub open spec fn site_at(
    img: Seq<u8>,
    format: ContainerFormat,
    entry_preamble: bool,
    r: Reloc,
) -> int {
    match r.section {
        Section::Code => code_at(format, entry_preamble) + r.site,
        Section::Data => p_offset(img, 1) + r.site,
    }
}

/// Whether no relocation patches byte `i` of `section`.
pub open spec fn unpatched(mc: McView, section: Section, i: int) -> bool {
    forall|k: int|
        0 <= k < mc.relocs.len() && (#[trigger] mc.relocs[k]).section == section ==> i
            < mc.relocs[k].site || i >= mc.relocs[k].site + 8
}

proof fn lemma_unpatched(mc: McView, l: Layout, n: int, i: int)
    requires
        0 <= n <= mc.relocs.len(),
        0 <= i,
    ensures
        i < mc.code.len() && unpatched(mc, Section::Code, i) ==> relocated(mc, l, n).0[i]
            == mc.code[i],
        i < mc.data.len() && unpatched(mc, Section::Data, i) ==> relocated(mc, l, n).1[i]
            == mc.data[i],
    decreases n,
{
    if n > 0 {
        lemma_unpatched(mc, l, n - 1, i);
        lemma_relocated_len(mc, l, n - 1);
        let r = mc.relocs[n - 1];
        assert(r.section == Section::Code || r.section == Section::Data);
    }
}

proof fn lemma_header_fields(flags: u32, off: int, vaddr: int, filesz: int, memsz: int)
    requires
        0 <= off <= u64::MAX,
        0 <= vaddr <= u64::MAX,
        0 <= filesz <= u64::MAX,
        0 <= memsz <= u64::MAX,
    ensures
        ({
            let h = program_header(flags, off, vaddr, filesz, memsz);
            &&& u32_at(h, 0) == 1
            &&& u32_at(h, 4) == flags
            &&& u64_at(h, 8) == off
            &&& u64_at(h, 16) == vaddr
            &&& u64_at(h, 32) == filesz
            &&& u64_at(h, 40) == memsz
        }),
{
    reveal(program_header);
    let h = program_header(flags, off, vaddr, filesz, memsz);
    lemma_program_header_len(flags, off, vaddr, filesz, memsz);
    assert(h.subrange(0, 4) =~= le32(1));
    assert(h.subrange(4, 8) =~= le32(flags));
    assert(h.subrange(8, 16) =~= le64(off as u64));
    assert(h.subrange(16, 24) =~= le64(vaddr as u64));
    assert(h.subrange(32, 40) =~= le64(filesz as u64));
    assert(h.subrange(40, 48) =~= le64(memsz as u64));
    lemma_u32_at(h, 0, 1);
    lemma_u32_at(h, 4, flags);
    lemma_u64_at(h, 8, off as u64);
    lemma_u64_at(h, 16, vaddr as u64);
    lemma_u64_at(h, 32, filesz as u64);
    lemma_u64_at(h, 40, memsz as u64);
}

proof fn lemma_table(l: Layout)
    ensures
        u64_at(elf_header(l), 32) == 64,
{
    reveal(elf_header);
    let h = elf_header(l);
    assert(h.len() == 64);
    assert(h.subrange(32, 40) =~= le64(64));
    lemma_u64_at(h, 32, 64);
}

proof fn lemma_split(
    h: Seq<u8>,
    p1: Seq<u8>,
    p2: Seq<u8>,
    p3: Seq<u8>,
    pre: Seq<u8>,
    code: Seq<u8>,
)
    requires
        h.len() == 64,
        p1.len() == 56,
        p2.len() == 56,
        p3.len() == 56,
    ensures
        ({
            let f = h + p1 + p2 + p3 + pre + code;
            &&& f.subrange(64, 120) == p1
            &&& f.subrange(120, 176) == p2
            &&& f.subrange(176, 232) == p3
        }),
{
    let f = h + p1 + p2 + p3 + pre + code;
    assert(f.subrange(64, 120) =~= p1);
    assert(f.subrange(120, 176) =~= p2);
    assert(f.subrange(176, 232) =~= p3);
}

/// The front of the image.
proof fn lemma_front(mc: McView, format: ContainerFormat, entry_preamble: bool)
    requires
        entry_preamble ==> format.preamble_len >= 10,
    ensures
        ({
            let l = layout_of(mc, format, entry_preamble);
            let img = image_of(mc, l);
            &&& front(mc, l).len() <= img.len()
            &&& img.subrange(0, front(mc, l).len() as int) == front(mc, l)
            &&& front(mc, l).len() >= 232
        }),
{
    let l = layout_of(mc, format, entry_preamble);
    let n = mc.fn_bases.len() as int;
    let (code, data) = relocated(mc, l, mc.relocs.len() as int);
    lemma_layout(mc, format, entry_preamble);
    lemma_relocated_len(mc, l, mc.relocs.len() as int);
    lemma_front_len(mc, l);
    lemma_section_headers_len(mc, l);
    lemma_pieces(
        front(mc, l),
        (l.data_off, l.symtab_off, l.strtab_off, l.shstrtab_off, l.shoff),
        (data, symtab(n, n + 2), strtab(n, n + 2), shstrtab(), section_headers(mc, l)),
    );
}

proof fn lemma_headers(mc: McView, format: ContainerFormat, entry_preamble: bool)
    requires
        entry_preamble ==> format.preamble_len >= 10,
    ensures
        ({
            let l = layout_of(mc, format, entry_preamble);
            let img = image_of(mc, l);
            let n = mc.data.len() as int;
            &&& img.len() >= 232
            &&& img.subrange(64, 120) == program_header(
                5,
                0,
                BASE_VADDR as int,
                CODE_OFF + l.rx_len,
                CODE_OFF + l.rx_len,
            )
            &&& img.subrange(120, 176) == program_header(6, l.data_off, l.data_vaddr, n, n)
            &&& img.subrange(176, 232) == program_header(6, l.data_off, l.heap_vaddr, 0, l.heap_len)
        }),
{
    let l = layout_of(mc, format, entry_preamble);
    let img = image_of(mc, l);
    let n = mc.data.len() as int;
    let code = relocated(mc, l, mc.relocs.len() as int).0;
    lemma_front(mc, format, entry_preamble);
    lemma_elf_header_len(l);
    let p1 = program_header(5, 0, BASE_VADDR as int, CODE_OFF + l.rx_len, CODE_OFF + l.rx_len);
    let p2 = program_header(6, l.data_off, l.data_vaddr, n, n);
    let p3 = program_header(6, l.data_off, l.heap_vaddr, 0, l.heap_len);
    lemma_program_header_len(5, 0, BASE_VADDR as int, CODE_OFF + l.rx_len, CODE_OFF + l.rx_len);
    lemma_program_header_len(6, l.data_off, l.data_vaddr, n, n);
    lemma_program_header_len(6, l.data_off, l.heap_vaddr, 0, l.heap_len);
    lemma_split(elf_header(l), p1, p2, p3, preamble_bytes(l.preamble), code);
    let f = front(mc, l);
    assert(img.subrange(64, 120) =~= img.subrange(0, f.len() as int).subrange(64, 120));
    assert(img.subrange(120, 176) =~= img.subrange(0, f.len() as int).subrange(120, 176));
    assert(img.subrange(176, 232) =~= img.subrange(0, f.len() as int).subrange(176, 232));
}

/// The three segments, as a loader reads them: the file from its start to
/// the end of the code, readable and executable; the data, readable and
/// writable; and room for the heap, which has no bytes in the file.
pub proof fn segments_cover_the_program(mc: McView, format: ContainerFormat, entry_preamble: bool)
    requires
        image_ready(mc, format, entry_preamble),
    ensures
        ({
            let img = image_of(mc, layout_of(mc, format, entry_preamble));
            &&& forall|k: int| 0 <= k < 3 ==> #[trigger] u32_at(img, header_at(img, k)) == 1
            &&& u32_at(img, header_at(img, 0) + 4) == 5
            &&& u32_at(img, header_at(img, 1) + 4) == 6
            &&& u32_at(img, header_at(img, 2) + 4) == 6
            &&& p_offset(img, 0) == 0
            &&& p_vaddr(img, 0) == BASE_VADDR
            &&& p_filesz(img, 0) == code_at(format, entry_preamble) + mc.code.len()
            &&& p_memsz(img, 0) == p_filesz(img, 0)
            &&& p_filesz(img, 1) == mc.data.len()
            &&& p_memsz(img, 1) == mc.data.len()
            &&& p_filesz(img, 2) == 0
            &&& p_memsz(img, 2) >= mc.heap_size
            &&& p_vaddr(img, 0) + p_memsz(img, 0) <= p_vaddr(img, 1)
            &&& p_vaddr(img, 1) + p_memsz(img, 1) <= p_vaddr(img, 2)
            &&& p_offset(img, 1) + p_filesz(img, 1) <= img.len()
        }),
{
    lemma_segments(mc, format, entry_preamble);
    lemma_layout(mc, format, entry_preamble);
    lemma_code_at(mc, format, entry_preamble);
    crate::bytes::lemma_align_up(mc.heap_size as int, 0x1000);
    let img = image_of(mc, layout_of(mc, format, entry_preamble));
    image_holds_its_pieces(mc, format, entry_preamble);
    assert forall|k: int| 0 <= k < 3 implies #[trigger] u32_at(img, header_at(img, k)) == 1 by {
        assert(k == 0 || k == 1 || k == 2);
    }
}

/// What the headers of an image say, by the places of its layout.
spec fn segments_are(mc: McView, l: Layout, img: Seq<u8>) -> bool {
    &&& header_at(img, 0) == 64
    &&& header_at(img, 1) == 120
    &&& header_at(img, 2) == 176
    &&& u32_at(img, 64) == 1
    &&& u32_at(img, 120) == 1
    &&& u32_at(img, 176) == 1
    &&& u32_at(img, 68) == 5
    &&& u32_at(img, 124) == 6
    &&& u32_at(img, 180) == 6
    &&& p_offset(img, 0) == 0
    &&& p_vaddr(img, 0) == BASE_VADDR
    &&& p_filesz(img, 0) == CODE_OFF + l.rx_len
    &&& p_memsz(img, 0) == CODE_OFF + l.rx_len
    &&& p_offset(img, 1) == l.data_off
    &&& p_vaddr(img, 1) == l.data_vaddr
    &&& p_filesz(img, 1) == mc.data.len()
    &&& p_memsz(img, 1) == mc.data.len()
    &&& p_vaddr(img, 2) == l.heap_vaddr
    &&& p_filesz(img, 2) == 0
    &&& p_memsz(img, 2) == l.heap_len
}

proof fn lemma_segments(mc: McView, format: ContainerFormat, entry_preamble: bool)
    requires
        image_ready(mc, format, entry_preamble),
    ensures
        ({
            let l = layout_of(mc, format, entry_preamble);
            segments_are(mc, l, image_of(mc, l))
        }),
{
    let l = layout_of(mc, format, entry_preamble);
    let img = image_of(mc, l);
    image_holds_its_pieces(mc, format, entry_preamble);
    lemma_layout(mc, format, entry_preamble);
    lemma_headers(mc, format, entry_preamble);
    lemma_segments_of(mc, l, img);
}

#[verifier::spinoff_prover]
proof fn lemma_segments_of(mc: McView, l: Layout, img: Seq<u8>)
    requires
        img.len() >= 232,
        img.subrange(0, 64) == elf_header(l),
        img.subrange(64, 120) == program_header(
            5,
            0,
            BASE_VADDR as int,
            CODE_OFF + l.rx_len,
            CODE_OFF + l.rx_len,
        ),
        img.subrange(120, 176) == program_header(
            6,
            l.data_off,
            l.data_vaddr,
            mc.data.len() as int,
            mc.data.len() as int,
        ),
        img.subrange(176, 232) == program_header(6, l.data_off, l.heap_vaddr, 0, l.heap_len),
        0 <= l.rx_len,
        0 <= l.data_off <= u64::MAX,
        0 <= l.data_vaddr <= u64::MAX,
        0 <= l.heap_vaddr <= u64::MAX,
        0 <= l.heap_len <= u64::MAX,
        CODE_OFF + l.rx_len <= u64::MAX,
        mc.data.len() <= u64::MAX,
    ensures
        segments_are(mc, l, img),
{
    let n = mc.data.len() as int;
    lemma_table(l);
    lemma_read_piece(img, 0, 64, 32);
    lemma_header_fields(5, 0, BASE_VADDR as int, CODE_OFF + l.rx_len, CODE_OFF + l.rx_len);
    lemma_header_fields(6, l.data_off, l.data_vaddr, n, n);
    lemma_header_fields(6, l.data_off, l.heap_vaddr, 0, l.heap_len);
    lemma_read_header(img, 64);
    lemma_read_header(img, 120);
    lemma_read_header(img, 176);
    reveal(header_at);
    reveal(p_offset);
    reveal(p_vaddr);
    reveal(p_filesz);
    reveal(p_memsz);
    assert(header_at(img, 0) == 64 && header_at(img, 1) == 120 && header_at(img, 2) == 176);
}

proof fn lemma_read_header(img: Seq<u8>, at: int)
    requires
        0 <= at,
        at + 56 <= img.len(),
    ensures
        ({
            let h = img.subrange(at, at + 56);
            &&& u32_at(img, at) == u32_at(h, 0)
            &&& u32_at(img, at + 4) == u32_at(h, 4)
            &&& u64_at(img, at + 8) == u64_at(h, 8)
            &&& u64_at(img, at + 16) == u64_at(h, 16)
            &&& u64_at(img, at + 32) == u64_at(h, 32)
            &&& u64_at(img, at + 40) == u64_at(h, 40)
        }),
{
    lemma_read_piece(img, at, at + 56, 0);
    lemma_read_piece(img, at, at + 56, 4);
    lemma_read_piece(img, at, at + 56, 8);
    lemma_read_piece(img, at, at + 56, 16);
    lemma_read_piece(img, at, at + 56, 32);
    lemma_read_piece(img, at, at + 56, 40);
}

/// A byte of the data that no relocation patches is loaded as it is, at its
/// offset from the address of the data segment.
#[verifier::spinoff_prover]
pub proof fn data_is_loaded(mc: McView, format: ContainerFormat, entry_preamble: bool, i: int)
    requires
        image_ready(mc, format, entry_preamble),
        0 <= i < mc.data.len(),
        unpatched(mc, Section::Data, i),
    ensures
        ({
            let img = image_of(mc, layout_of(mc, format, entry_preamble));
            let a = p_vaddr(img, 1) + i;
            holds(img, 1, a) && loaded(img, 1, a) == mc.data[i]
        }),
{
    let l = layout_of(mc, format, entry_preamble);
    let img = image_of(mc, l);
    let data = relocated(mc, l, mc.relocs.len() as int).1;
    lemma_segments(mc, format, entry_preamble);
    image_holds_its_pieces(mc, format, entry_preamble);
    lemma_layout(mc, format, entry_preamble);
    lemma_unpatched(mc, l, mc.relocs.len() as int, i);
    lemma_relocated_len(mc, l, mc.relocs.len() as int);
    lemma_piece_byte(img, l.data_off, data, i);
}

proof fn lemma_piece_byte(img: Seq<u8>, from: int, piece: Seq<u8>, i: int)
    requires
        0 <= from,
        from + piece.len() <= img.len(),
        img.subrange(from, from + piece.len()) == piece,
        0 <= i < piece.len(),
    ensures
        img[from + i] == piece[i],
{
    assert(img.subrange(from, from + piece.len())[i] == img[from + i]);
}

/// A byte of the code that no relocation patches is loaded as it is, at its
/// offset from the start of the code.
#[verifier::spinoff_prover]
pub proof fn code_is_loaded(mc: McView, format: ContainerFormat, entry_preamble: bool, i: int)
    requires
        image_ready(mc, format, entry_preamble),
        0 <= i < mc.code.len(),
        unpatched(mc, Section::Code, i),
    ensures
        ({
            let img = image_of(mc, layout_of(mc, format, entry_preamble));
            let a = p_vaddr(img, 0) + code_at(format, entry_preamble) + i;
            holds(img, 0, a) && loaded(img, 0, a) == mc.code[i]
        }),
{
    let l = layout_of(mc, format, entry_preamble);
    let img = image_of(mc, l);
    let code = relocated(mc, l, mc.relocs.len() as int).0;
    lemma_segments(mc, format, entry_preamble);
    image_holds_its_pieces(mc, format, entry_preamble);
    lemma_layout(mc, format, entry_preamble);
    lemma_unpatched(mc, l, mc.relocs.len() as int, i);
    lemma_code_at(mc, format, entry_preamble);
    lemma_relocated_len(mc, l, mc.relocs.len() as int);
    lemma_piece_byte(img, CODE_OFF + l.preamble, code, i);
}

/// An address site that no later relocation touches holds an address in the
/// segment that its symbol is in: of a place in the data, that of the data
/// segment plus the place; of a place in the code, that of the code plus the
/// place; and of the heap, where its segment starts.
pub proof fn addresses_are_where_things_are_loaded(
    mc: McView,
    format: ContainerFormat,
    entry_preamble: bool,
    k: int,
)
    requires
        image_ready(mc, format, entry_preamble),
        0 <= k < mc.relocs.len(),
        mc.relocs[k].kind == RelocKind::Abs64,
        forall|j: int| k < j < mc.relocs.len() ==> apart(mc.relocs[k], #[trigger] mc.relocs[j]),
    ensures
        ({
            let img = image_of(mc, layout_of(mc, format, entry_preamble));
            let r = mc.relocs[k];
            let word = u64_at(img, site_at(img, format, entry_preamble, r));
            &&& data_place(mc, r.sym) matches Some(i) ==> word == p_vaddr(img, 1) + i
            &&& code_place(mc, r.sym) matches Some(i) ==> word == p_vaddr(img, 0) + code_at(
                format,
                entry_preamble,
            ) + i
            &&& r.sym is HeapBase ==> word == p_vaddr(img, 2)
        }),
{
    let l = layout_of(mc, format, entry_preamble);
    let img = image_of(mc, l);
    let r = mc.relocs[k];
    lemma_segments(mc, format, entry_preamble);
    relocations_hold(mc, format, entry_preamble, k);
    lemma_places(mc, l, r.sym);
    lemma_code_at(mc, format, entry_preamble);
    assert(site_at(img, format, entry_preamble, r) == match r.section {
        Section::Code => CODE_OFF + l.preamble + r.site,
        Section::Data => l.data_off + r.site,
    });
}

/// Addresses by the places of the layout.
proof fn lemma_places(mc: McView, l: Layout, sym: Sym)
    ensures
        data_place(mc, sym) matches Some(i) ==> address(mc, l, sym) == l.data_vaddr + i,
        code_place(mc, sym) matches Some(i) ==> address(mc, l, sym) == BASE_VADDR + CODE_OFF
            + l.preamble + i,
        sym is HeapBase ==> address(mc, l, sym) == l.heap_vaddr,
{
    reveal(address);
}

proof fn lemma_code_at(mc: McView, format: ContainerFormat, entry_preamble: bool)
    ensures
        code_at(format, entry_preamble) == CODE_OFF + layout_of(
            mc,
            format,
            entry_preamble,
        ).preamble,
        layout_of(mc, format, entry_preamble).rx_len == layout_of(
            mc,
            format,
            entry_preamble,
        ).preamble + mc.code.len(),
{
}

/// A place in the data that the code takes the address of is the byte that
/// is loaded there.
pub proof fn addresses_lead_to_their_bytes(
    mc: McView,
    format: ContainerFormat,
    entry_preamble: bool,
    k: int,
)
    requires
        image_ready(mc, format, entry_preamble),
        0 <= k < mc.relocs.len(),
        mc.relocs[k].kind == RelocKind::Abs64,
        forall|j: int| k < j < mc.relocs.len() ==> apart(mc.relocs[k], #[trigger] mc.relocs[j]),
        data_place(mc, mc.relocs[k].sym) matches Some(i) && i < mc.data.len() && unpatched(
            mc,
            Section::Data,
            i,
        ),
    ensures
        ({
            let img = image_of(mc, layout_of(mc, format, entry_preamble));
            let r = mc.relocs[k];
            let word = u64_at(img, site_at(img, format, entry_preamble, r)) as int;
            holds(img, 1, word) && loaded(img, 1, word) == mc.data[data_place(mc, r.sym)->0]
        }),
{
    let i = data_place(mc, mc.relocs[k].sym)->0;
    addresses_are_where_things_are_loaded(mc, format, entry_preamble, k);
    data_is_loaded(mc, format, entry_preamble, i);
}

/// A call site that no later relocation touches holds the distance from its
/// end to the place in the code that its symbol names.
pub proof fn calls_go_to_their_targets(
    mc: McView,
    format: ContainerFormat,
    entry_preamble: bool,
    k: int,
)
    requires
        image_ready(mc, format, entry_preamble),
        0 <= k < mc.relocs.len(),
        mc.relocs[k].kind == RelocKind::Rel32Call,
        mc.relocs[k].section == Section::Code,
        code_place(mc, mc.relocs[k].sym) is Some,
        forall|j: int| k < j < mc.relocs.len() ==> apart(mc.relocs[k], #[trigger] mc.relocs[j]),
    ensures
        ({
            let img = image_of(mc, layout_of(mc, format, entry_preamble));
            let r = mc.relocs[k];
            let at = code_at(format, entry_preamble) + r.site;
            u32_at(img, at) == wrap32(code_place(mc, r.sym)->0 - (r.site + 4))
        }),
{
    let l = layout_of(mc, format, entry_preamble);
    relocations_hold(mc, format, entry_preamble, k);
    let r = mc.relocs[k];
    lemma_places(mc, l, r.sym);
    lemma_code_at(mc, format, entry_preamble);
    assert(address(mc, l, r.sym) - (l.code_vaddr() + r.site + 4) == code_place(mc, r.sym)->0 - (
    r.site + 4));
}

} // verus!
