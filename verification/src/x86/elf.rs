//! Executable images.
//!
//! Three segments follow the ELF headers:
//!
//! ```text
//! [ELF header][3 program headers][header of the tool chain][code]   R+X
//! [data]                                                            RW
//! [object heap, no file bytes]                                      RW
//! ```
//!
//! and behind them the symbol table, two string tables and the section
//! headers. Every symbol has a known address in this layout, so the image is
//! final when it is written.
use crate::bytes::{
    align_u128, align_up, difference32, le16, le32, le64, lemma_align_up, lemma_assoc,
    lemma_empty_front, lemma_pieces, lemma_put_elsewhere, lemma_put_u32, lemma_put_u64,
    lemma_read_piece, lemma_u64_at, pad_to, push_bytes, push_pad, push_u16, push_u32,
    push_u64, push_zeros, put_at, u32_at, u64_at, wrap32, write_at, zeros,
};
use crate::container::{marker, ContainerFormat, JUMP_OVER_MAGIC, MAGIC};
use crate::target::{MachineCode, McView, Reloc, RelocKind, Section, Sym, TargetError};
use crate::x86::shlib;
use vstd::prelude::*;
use vstd::utf8::encode_utf8;

verus! {

/// Address of the first segment.
pub const BASE_VADDR: u64 = 0x0040_0000;

pub const PAGE: u64 = 0x1000;

/// File offset behind the ELF header and three program headers.
pub const CODE_OFF: usize = 232;

/// The writer of executable images.
#[derive(Debug, Clone, Copy)]
pub struct Writer;

// ---- symbol and string tables

/// The decimal digits of `n`.
pub open spec fn decimal(n: nat) -> Seq<u8>
    decreases n,
{
    if n < 10 {
        seq![(0x30 + n) as u8]
    } else {
        decimal(n / 10).push((0x30 + n % 10) as u8)
    }
}

/// Name of the symbol of function `i`.
pub open spec fn fn_name(i: int) -> Seq<u8> {
    if i == 0 {
        encode_utf8("main"@)
    } else {
        encode_utf8("fn_"@) + decimal(i as nat)
    }
}

/// Name of symbol `k` behind the null symbol, with `n` functions: the entry,
/// the functions, the heap.
pub open spec fn symbol_name(n: int, k: int) -> Seq<u8> {
    if k == 0 {
        encode_utf8("_start"@)
    } else if k <= n {
        fn_name(k - 1)
    } else {
        encode_utf8("__heap_base"@)
    }
}

/// The string table with the names of the first `k` symbols: a NUL, and each
/// name with a NUL behind it.
pub open spec fn strtab(n: int, k: int) -> Seq<u8>
    decreases k,
{
    if k <= 0 {
        seq![0u8]
    } else {
        strtab(n, k - 1) + symbol_name(n, k - 1) + seq![0u8]
    }
}

/// A symbol table entry.
pub open spec fn symbol_entry(name: int, info: u8, section: u16) -> Seq<u8> {
    le64(name as u64) + seq![info, 0u8] + le16(section) + zeros(12)
}

/// The null symbol and the first `k` others. Functions have type and binding
/// 0x02 in section 1, the heap 0x31 in section 3.
pub open spec fn symtab(n: int, k: int) -> Seq<u8>
    decreases k,
{
    if k <= 0 {
        zeros(24)
    } else {
        symtab(n, k - 1) + symbol_entry(
            strtab(n, k - 1).len() as int,
            if k - 1 <= n {
                0x02
            } else {
                0x31
            },
            if k - 1 <= n {
                1
            } else {
                3
            },
        )
    }
}

/// The section names.
pub open spec fn shstrtab() -> Seq<u8> {
    encode_utf8("\0.text\0.data\0.bss\0.symtab\0.strtab"@)
}

// ---- layout

/// Where everything goes.
pub struct Layout {
    /// Bytes between the program headers and the code.
    pub preamble: int,
    /// Bytes of the executable segment behind the program headers.
    pub rx_len: int,
    pub data_vaddr: int,
    pub heap_vaddr: int,
    /// Size of the heap in whole pages.
    pub heap_len: int,
    pub data_off: int,
    pub symtab_off: int,
    pub symtab_len: int,
    pub strtab_off: int,
    pub strtab_len: int,
    pub shstrtab_off: int,
    pub shoff: int,
}

impl Layout {
    /// Address of the code.
    pub open spec fn code_vaddr(self) -> int {
        BASE_VADDR + CODE_OFF + self.preamble
    }

    /// Size of the image.
    pub open spec fn total(self) -> int {
        self.shoff + 384
    }
}

pub open spec fn layout_of(mc: McView, format: ContainerFormat, entry_preamble: bool) -> Layout {
    let n = mc.fn_bases.len() as int;
    let preamble = if entry_preamble {
        format.preamble_len as int
    } else {
        0
    };
    let rx_len = preamble + mc.code.len();
    let data_vaddr = align_up(BASE_VADDR + CODE_OFF + rx_len, PAGE as int);
    let data_off = align_up(CODE_OFF + rx_len, PAGE as int);
    let symtab_off = align_up(data_off + mc.data.len(), 8);
    let symtab_len = symtab(n, n + 2).len() as int;
    let strtab_off = align_up(symtab_off + symtab_len, 8);
    let strtab_len = strtab(n, n + 2).len() as int;
    let shstrtab_off = align_up(strtab_off + strtab_len, 8);
    Layout {
        preamble,
        rx_len,
        data_vaddr,
        heap_vaddr: align_up(data_vaddr + mc.data.len(), PAGE as int),
        heap_len: align_up(mc.heap_size as int, PAGE as int),
        data_off,
        symtab_off,
        symtab_len,
        strtab_off,
        strtab_len,
        shstrtab_off,
        shoff: align_up(shstrtab_off + shstrtab().len(), 8),
    }
}

// ---- relocation

/// `x`, or 0 where there is none.
pub open spec fn or_zero(x: Option<usize>) -> int {
    match x {
        Some(v) => v as int,
        None => 0,
    }
}

/// The address of `sym`. A helper that is not there counts as offset 0.
#[verifier::opaque]
pub open spec fn address(mc: McView, l: Layout, sym: Sym) -> int {
    let code = l.code_vaddr();
    match sym {
        Sym::Fn(i) => code + mc.fn_bases[i as int],
        Sym::String(off) => l.data_vaddr + off,
        Sym::VtableOff(off) => l.data_vaddr + off,
        Sym::Static(i) => l.data_vaddr + if i < mc.static_offsets.len() {
            mc.static_offsets[i as int] as int
        } else {
            0
        },
        Sym::HeapBase => l.heap_vaddr,
        Sym::HelperItoa => code + or_zero(mc.helper_itoa),
        Sym::HelperItoaErr => code + or_zero(mc.helper_itoa_err),
        Sym::HelperScanInt => code + or_zero(mc.helper_scan_int),
        Sym::HelperRetain => code + or_zero(mc.helper_retain),
        Sym::HelperRelease => code + or_zero(mc.helper_release),
        Sym::HelperAlloc => code + or_zero(mc.helper_alloc),
        Sym::HelperExcEnter => code + or_zero(mc.helper_exc_enter),
        Sym::HelperExcPop => code + or_zero(mc.helper_exc_pop),
        Sym::HelperExcThrow => code + or_zero(mc.helper_exc_throw),
        Sym::HelperExcRethrow => code + or_zero(mc.helper_exc_rethrow),
        Sym::HelperExcLoad => code + or_zero(mc.helper_exc_load),
        Sym::HelperExcClear => code + or_zero(mc.helper_exc_clear),
        Sym::ExcState(off) => l.data_vaddr + off,
        Sym::ArgvRsp => if mc.helper_argv is Some && mc.data.len() > 0 {
            l.data_vaddr + mc.data.len() - 8
        } else {
            l.data_vaddr
        },
        Sym::Import(i) => code + mc.import_bases[i as int],
        Sym::Name(_) => 0,
    }
}

/// Whether `sym` has an address.
pub open spec fn resolvable(mc: McView, l: Layout, sym: Sym) -> bool {
    &&& sym matches Sym::Fn(i) ==> i < mc.fn_bases.len()
    &&& sym matches Sym::Import(i) ==> i < mc.import_bases.len()
    &&& address(mc, l, sym) <= u64::MAX
}

/// The code and the data with the first `n` relocations applied.
pub open spec fn relocated(mc: McView, l: Layout, n: int) -> (Seq<u8>, Seq<u8>)
    decreases n,
{
    if n <= 0 {
        (mc.code, mc.data)
    } else {
        let (code, data) = relocated(mc, l, n - 1);
        let r = mc.relocs[n - 1];
        let to = address(mc, l, r.sym);
        match (r.section, r.kind) {
            (Section::Code, RelocKind::Abs64) => (
                put_at(code, r.site as int, le64(to as u64)),
                data,
            ),
            (Section::Code, RelocKind::Rel32Call) => (
                put_at(code, r.site as int, le32(wrap32(to - (l.code_vaddr() + r.site + 4)))),
                data,
            ),
            (Section::Data, RelocKind::Abs64) => (
                code,
                put_at(data, r.site as int, le64(to as u64)),
            ),
            (Section::Data, RelocKind::Rel32Call) => (code, data),
        }
    }
}

// ---- headers

#[verifier::opaque]
pub open spec fn elf_header(l: Layout) -> Seq<u8> {
    seq![0x7Fu8, 0x45, 0x4C, 0x46, 2, 1, 1, 0] + zeros(8) + le16(2) + le16(62) + le32(1) + le64(
        (BASE_VADDR + CODE_OFF) as u64,
    ) + le64(64) + le64(l.shoff as u64) + le32(0) + le16(64) + le16(56) + le16(3) + le16(6) + zeros(
        4,
    )
}

/// A program header of a loadable segment.
#[verifier::opaque]
pub open spec fn program_header(flags: u32, off: int, vaddr: int, filesz: int, memsz: int) -> Seq<u8> {
    le32(1) + le32(flags) + le64(off as u64) + le64(vaddr as u64) + le64(vaddr as u64) + le64(
        filesz as u64,
    ) + le64(memsz as u64) + le64(PAGE)
}

/// A section header by its ten fields.
#[verifier::opaque]
pub open spec fn section_header(
    name: u32,
    kind: u32,
    flags: int,
    addr: int,
    off: int,
    size: int,
    link: u32,
    info: u32,
    align: u64,
    entry: u64,
) -> Seq<u8> {
    le32(name) + le32(kind) + le64(flags as u64) + le64(addr as u64) + le64(off as u64) + le64(
        size as u64,
    ) + le32(link) + le32(info) + le64(align) + le64(entry)
}

/// The section headers: a null one, the code, the data, the heap, the symbol
/// table, which goes with the string table in section 5 and whose first
/// symbol that is not local is number 1, and the string table.
pub open spec fn section_headers(mc: McView, l: Layout) -> Seq<u8> {
    let n = mc.data.len() as int;
    zeros(64) + section_header(
        1,
        1,
        6,
        BASE_VADDR + CODE_OFF,
        CODE_OFF as int,
        l.rx_len,
        0,
        0,
        8,
        0,
    ) + section_header(6, 1, 6, l.data_vaddr, l.data_off, n, 0, 0, 8, 0) + section_header(
        11,
        8,
        6,
        l.heap_vaddr,
        0,
        l.heap_len,
        0,
        0,
        8,
        0,
    ) + section_header(15, 2, 0, 0, l.symtab_off, l.symtab_len, 5, 1, 0, 24) + section_header(
        22,
        3,
        0,
        0,
        l.strtab_off,
        l.strtab_len,
        0,
        0,
        0,
        0,
    )
}

/// The jump and the marker of the tool chain, in `n` bytes.
pub open spec fn preamble_bytes(n: int) -> Seq<u8> {
    if n == 0 {
        seq![]
    } else {
        pad_to(marker(), n)
    }
}

/// The front of the image: headers, code.
pub open spec fn front(mc: McView, l: Layout) -> Seq<u8> {
    elf_header(l) + program_header(5, 0, BASE_VADDR as int, CODE_OFF + l.rx_len, CODE_OFF + l.rx_len)
        + program_header(6, l.data_off, l.data_vaddr, mc.data.len() as int, mc.data.len() as int)
        + program_header(6, l.data_off, l.heap_vaddr, 0, l.heap_len) + preamble_bytes(l.preamble)
        + relocated(mc, l, mc.relocs.len() as int).0
}

/// The whole image: each piece from its offset on, with zeros between.
pub open spec fn image_of(mc: McView, l: Layout) -> Seq<u8> {
    let n = mc.fn_bases.len() as int;
    let a = pad_to(front(mc, l), l.data_off) + relocated(mc, l, mc.relocs.len() as int).1;
    let b = pad_to(a, l.symtab_off) + symtab(n, n + 2);
    let c = pad_to(b, l.strtab_off) + strtab(n, n + 2);
    let d = pad_to(c, l.shstrtab_off) + shstrtab();
    pad_to(d, l.shoff) + section_headers(mc, l)
}

/// Whether `r` patches bytes that exist with the address of a symbol that has
/// one.
pub open spec fn reloc_ready(mc: McView, l: Layout, r: Reloc) -> bool {
    &&& resolvable(mc, l, r.sym)
    &&& match (r.section, r.kind) {
        (Section::Code, RelocKind::Abs64) => r.site + 8 <= mc.code.len(),
        (Section::Code, RelocKind::Rel32Call) => r.site + 4 <= mc.code.len(),
        (Section::Data, RelocKind::Abs64) => r.site + 8 <= mc.data.len(),
        (Section::Data, RelocKind::Rel32Call) => true,
    }
}

/// Whether an image can be written: the entry header, where it is asked for,
/// has room for the marker, every relocation is ready, and sizes and
/// addresses fit.
pub open spec fn image_ready(mc: McView, format: ContainerFormat, entry_preamble: bool) -> bool {
    let l = layout_of(mc, format, entry_preamble);
    &&& entry_preamble ==> format.preamble_len >= 10
    &&& l.total() <= usize::MAX
    &&& l.heap_vaddr <= u64::MAX
    &&& l.heap_len <= u64::MAX
    &&& forall|k: int| 0 <= k < mc.relocs.len() ==> reloc_ready(mc, l, #[trigger] mc.relocs[k])
}

// ---- writing

fn push_decimal(v: &mut Vec<u8>, n: usize)
    ensures
        final(v)@ == old(v)@ + decimal(n as nat),
    decreases n,
{
    if n < 10 {
        v.push((0x30 + n) as u8);
        assert(v@ =~= old(v)@ + decimal(n as nat));
    } else {
        push_decimal(v, n / 10);
        v.push((0x30 + n % 10) as u8);
        assert(v@ =~= old(v)@ + decimal(n as nat));
    }
}

fn push_symbol_name(v: &mut Vec<u8>, n: usize, k: usize)
    requires
        n < usize::MAX,
    ensures
        final(v)@ == old(v)@ + symbol_name(n as int, k as int),
{
    if k == 0 {
        push_bytes(v, "_start".as_bytes());
    } else if k == 1 && n > 0 {
        push_bytes(v, "main".as_bytes());
    } else if k <= n {
        push_bytes(v, "fn_".as_bytes());
        push_decimal(v, k - 1);
        proof {
            lemma_assoc(old(v)@, encode_utf8("fn_"@), decimal((k - 1) as nat));
        }
    } else {
        push_bytes(v, "__heap_base".as_bytes());
    }
}

proof fn lemma_symtab_len(n: int, k: int)
    requires
        0 <= k,
    ensures
        symtab(n, k).len() == 24 * (k + 1),
    decreases k,
{
    if k > 0 {
        lemma_symtab_len(n, k - 1);
    }
}

fn push_symbol(v: &mut Vec<u8>, name: u64, info: u8, section: u16)
    ensures
        final(v)@ == old(v)@ + symbol_entry(name as int, info, section),
{
    let ghost o = v@;
    let ghost a = le64(name);
    let ghost b = seq![info, 0u8];
    let ghost c = le16(section);
    push_u64(v, name);
    v.push(info);
    v.push(0);
    proof {
        assert(v@ =~= (o + a) + b);
    }
    push_u16(v, section);
    push_zeros(v, 12);
    proof {
        lemma_assoc(o, a, b);
        lemma_assoc(o, a + b, c);
        lemma_assoc(o, a + b + c, zeros(12));
    }
}

/// The symbol table and its string table, for `n` functions.
fn build_symbols(n: usize) -> (r: (Vec<u8>, Vec<u8>))
    requires
        24 * (n + 3) <= usize::MAX,
    ensures
        r.0@ == symtab(n as int, n + 2),
        r.1@ == strtab(n as int, n + 2),
{
    let mut sym: Vec<u8> = Vec::new();
    push_zeros(&mut sym, 24);
    let mut names: Vec<u8> = Vec::new();
    names.push(0);
    proof {
        assert(sym@ =~= symtab(n as int, 0));
        assert(names@ =~= strtab(n as int, 0));
    }
    let mut k: usize = 0;
    while k < n + 2
        invariant
            24 * (n + 3) <= usize::MAX,
            k <= n + 2,
            sym@ == symtab(n as int, k as int),
            names@ == strtab(n as int, k as int),
        decreases n + 2 - k,
    {
        let ghost s0 = sym@;
        let ghost t0 = names@;
        if k <= n {
            push_symbol(&mut sym, names.len() as u64, 0x02, 1);
        } else {
            push_symbol(&mut sym, names.len() as u64, 0x31, 3);
        }
        push_symbol_name(&mut names, n, k);
        let ghost t1 = names@;
        names.push(0);
        proof {
            assert(names@ =~= t1 + seq![0u8]);
        }
        k += 1;
    }
    (sym, names)
}

fn file_header(shoff: u64) -> (v: Vec<u8>)
    ensures
        forall|l: Layout| l.shoff == shoff ==> v@ == #[trigger] elf_header(l),
{
    proof {
        reveal(elf_header);
    }
    let mut v: Vec<u8> = vec![0x7F, 0x45, 0x4C, 0x46, 2, 1, 1, 0];
    proof {
        assert(v@ =~= seq![0x7Fu8, 0x45, 0x4C, 0x46, 2, 1, 1, 0]);
    }
    push_zeros(&mut v, 8);
    push_u16(&mut v, 2);
    push_u16(&mut v, 62);
    push_u32(&mut v, 1);
    push_u64(&mut v, BASE_VADDR + CODE_OFF as u64);
    push_u64(&mut v, 64);
    push_u64(&mut v, shoff);
    push_u32(&mut v, 0);
    push_u16(&mut v, 64);
    push_u16(&mut v, 56);
    push_u16(&mut v, 3);
    push_u16(&mut v, 6);
    push_zeros(&mut v, 4);
    v
}

fn write_ph(flags: u32, off: u64, vaddr: u64, filesz: u64, memsz: u64) -> (v: Vec<u8>)
    ensures
        v@ == program_header(flags, off as int, vaddr as int, filesz as int, memsz as int),
{
    let mut v: Vec<u8> = Vec::new();
    proof {
        reveal(program_header);
        lemma_empty_front(le32(1));
    }
    push_u32(&mut v, 1);
    push_u32(&mut v, flags);
    push_u64(&mut v, off);
    push_u64(&mut v, vaddr);
    push_u64(&mut v, vaddr);
    push_u64(&mut v, filesz);
    push_u64(&mut v, memsz);
    push_u64(&mut v, PAGE);
    v
}

fn write_sh(
    name: u32,
    kind: u32,
    flags: u64,
    addr: u64,
    off: u64,
    size: u64,
    link: u32,
    info: u32,
    align: u64,
    entry: u64,
) -> (v: Vec<u8>)
    ensures
        v@ == section_header(
            name,
            kind,
            flags as int,
            addr as int,
            off as int,
            size as int,
            link,
            info,
            align,
            entry,
        ),
{
    let mut v: Vec<u8> = Vec::new();
    proof {
        reveal(section_header);
        lemma_empty_front(le32(name));
    }
    push_u32(&mut v, name);
    push_u32(&mut v, kind);
    push_u64(&mut v, flags);
    push_u64(&mut v, addr);
    push_u64(&mut v, off);
    push_u64(&mut v, size);
    push_u32(&mut v, link);
    push_u32(&mut v, info);
    push_u64(&mut v, align);
    push_u64(&mut v, entry);
    v
}

/// `Layout` as computed.
struct Plan {
    preamble: usize,
    rx_len: usize,
    data_vaddr: u64,
    heap_vaddr: u64,
    heap_len: u64,
    data_off: usize,
    symtab_off: usize,
    symtab_len: usize,
    strtab_off: usize,
    strtab_len: usize,
    shstrtab_off: usize,
    shoff: usize,
}

impl Plan {
    spec fn is(self, l: Layout) -> bool {
        &&& self.preamble == l.preamble
        &&& self.rx_len == l.rx_len
        &&& self.data_vaddr == l.data_vaddr
        &&& self.heap_vaddr == l.heap_vaddr
        &&& self.heap_len == l.heap_len
        &&& self.data_off == l.data_off
        &&& self.symtab_off == l.symtab_off
        &&& self.symtab_len == l.symtab_len
        &&& self.strtab_off == l.strtab_off
        &&& self.strtab_len == l.strtab_len
        &&& self.shstrtab_off == l.shstrtab_off
        &&& self.shoff == l.shoff
    }

    /// Address of the code.
    fn code_vaddr(&self, l: Ghost<Layout>) -> (r: u64)
        requires
            self.is(l@),
            l@.code_vaddr() <= u64::MAX,
        ensures
            r == l@.code_vaddr(),
    {
        BASE_VADDR + CODE_OFF as u64 + self.preamble as u64
    }
}

/// Whether sizes and addresses of `l` fit.
pub open spec fn layout_fits(l: Layout) -> bool {
    l.total() <= usize::MAX && l.heap_vaddr <= u64::MAX && l.heap_len <= u64::MAX
}

/// The layout, where it fits.
fn plan_layout(
    mc: &MachineCode,
    format: &ContainerFormat,
    entry_preamble: bool,
    symtab_len: usize,
    strtab_len: usize,
    shstrtab_len: usize,
) -> (r: Option<Plan>)
    requires
        symtab_len == symtab(mc@.fn_bases.len() as int, mc@.fn_bases.len() as int + 2).len(),
        strtab_len == strtab(mc@.fn_bases.len() as int, mc@.fn_bases.len() as int + 2).len(),
        shstrtab_len == shstrtab().len(),
    ensures
        r matches Some(plan) ==> plan.is(layout_of(mc@, *format, entry_preamble)) && layout_fits(
            layout_of(mc@, *format, entry_preamble),
        ),
        r is None ==> !layout_fits(layout_of(mc@, *format, entry_preamble)),
{
    let ghost l = layout_of(mc@, *format, entry_preamble);
    let preamble: u128 = if entry_preamble {
        format.preamble_len as u128
    } else {
        0
    };
    let rx_len: u128 = preamble + mc.code.len() as u128;
    let page: u128 = PAGE as u128;
    let head: u128 = CODE_OFF as u128;
    let data_len: u128 = mc.data.len() as u128;
    let data_vaddr: u128 = align_u128(BASE_VADDR as u128 + head + rx_len, page);
    let data_off: u128 = align_u128(head + rx_len, page);
    let heap_vaddr: u128 = align_u128(data_vaddr + data_len, page);
    let heap_len: u128 = align_u128(mc.heap_size as u128, page);
    let symtab_off: u128 = align_u128(data_off + data_len, 8);
    let strtab_off: u128 = align_u128(symtab_off + symtab_len as u128, 8);
    let shstrtab_off: u128 = align_u128(strtab_off + strtab_len as u128, 8);
    let shoff: u128 = align_u128(shstrtab_off + shstrtab_len as u128, 8);
    if shoff + 384 > usize::MAX as u128 || heap_vaddr > u64::MAX as u128 || heap_len
        > u64::MAX as u128 {
        return None;
    }
    Some(
        Plan {
            preamble: preamble as usize,
            rx_len: rx_len as usize,
            data_vaddr: data_vaddr as u64,
            heap_vaddr: heap_vaddr as u64,
            heap_len: heap_len as u64,
            data_off: data_off as usize,
            symtab_off: symtab_off as usize,
            symtab_len,
            strtab_off: strtab_off as usize,
            strtab_len,
            shstrtab_off: shstrtab_off as usize,
            shoff: shoff as usize,
        },
    )
}

/// `a + b`, where it is an address.
fn plus(a: u64, b: usize) -> (r: Option<u64>)
    ensures
        r == if a + b <= u64::MAX {
            Some((a + b) as u64)
        } else {
            None::<u64>
        },
{
    a.checked_add(b as u64)
}

fn helper_at(code: u64, x: Option<usize>) -> (r: Option<u64>)
    ensures
        r == if code + or_zero(x) <= u64::MAX {
            Some((code + or_zero(x)) as u64)
        } else {
            None::<u64>
        },
{
    match x {
        Some(v) => plus(code, v),
        None => Some(code),
    }
}

/// The address of `sym`, where it has one.
fn resolve(mc: &MachineCode, l: Ghost<Layout>, plan: &Plan, code: u64, sym: &Sym) -> (r: Option<u64>)
    requires
        plan.is(l@),
        code == l@.code_vaddr(),
        l@.data_vaddr + mc@.data.len() <= u64::MAX,
        8 <= l@.data_vaddr,
    ensures
        r matches Some(a) ==> resolvable(mc@, l@, *sym) && a == address(mc@, l@, *sym),
        r is None ==> !resolvable(mc@, l@, *sym),
{
    proof {
        reveal(address);
    }
    match sym {
        Sym::Fn(i) => if *i < mc.fn_bases.len() {
            plus(code, mc.fn_bases[*i])
        } else {
            None
        },
        Sym::String(off) => plus(plan.data_vaddr, *off),
        Sym::VtableOff(off) => plus(plan.data_vaddr, *off),
        Sym::Static(i) => if *i < mc.static_offsets.len() {
            plus(plan.data_vaddr, mc.static_offsets[*i])
        } else {
            Some(plan.data_vaddr)
        },
        Sym::HeapBase => Some(plan.heap_vaddr),
        Sym::HelperItoa => helper_at(code, mc.helper_itoa),
        Sym::HelperItoaErr => helper_at(code, mc.helper_itoa_err),
        Sym::HelperScanInt => helper_at(code, mc.helper_scan_int),
        Sym::HelperRetain => helper_at(code, mc.helper_retain),
        Sym::HelperRelease => helper_at(code, mc.helper_release),
        Sym::HelperAlloc => helper_at(code, mc.helper_alloc),
        Sym::HelperExcEnter => helper_at(code, mc.helper_exc_enter),
        Sym::HelperExcPop => helper_at(code, mc.helper_exc_pop),
        Sym::HelperExcThrow => helper_at(code, mc.helper_exc_throw),
        Sym::HelperExcRethrow => helper_at(code, mc.helper_exc_rethrow),
        Sym::HelperExcLoad => helper_at(code, mc.helper_exc_load),
        Sym::HelperExcClear => helper_at(code, mc.helper_exc_clear),
        Sym::ExcState(off) => plus(plan.data_vaddr, *off),
        Sym::ArgvRsp => if mc.helper_argv.is_some() && mc.data.len() > 0 {
            Some(plan.data_vaddr + mc.data.len() as u64 - 8)
        } else {
            Some(plan.data_vaddr)
        },
        Sym::Import(i) => if *i < mc.import_bases.len() {
            plus(code, mc.import_bases[*i])
        } else {
            None
        },
        Sym::Name(_) => Some(0),
    }
}

pub proof fn lemma_relocated_len(mc: McView, l: Layout, n: int)
    ensures
        relocated(mc, l, n).0.len() == mc.code.len(),
        relocated(mc, l, n).1.len() == mc.data.len(),
    decreases n,
{
    if n > 0 {
        lemma_relocated_len(mc, l, n - 1);
    }
}

/// Facts about a layout that fits.
pub proof fn lemma_layout(mc: McView, format: ContainerFormat, entry_preamble: bool)
    ensures
        ({
            let l = layout_of(mc, format, entry_preamble);
            &&& CODE_OFF + l.rx_len <= l.data_off
            &&& l.data_off + mc.data.len() <= l.symtab_off
            &&& l.symtab_off + l.symtab_len <= l.strtab_off
            &&& l.strtab_off + l.strtab_len <= l.shstrtab_off
            &&& l.shstrtab_off + shstrtab().len() <= l.shoff
            &&& BASE_VADDR + CODE_OFF + l.rx_len <= l.data_vaddr
            &&& l.data_vaddr + mc.data.len() <= l.heap_vaddr
            &&& l.preamble >= 0
            &&& l.rx_len == l.preamble + mc.code.len()
        }),
{
    let l = layout_of(mc, format, entry_preamble);
    lemma_align_up(BASE_VADDR + CODE_OFF + l.rx_len, PAGE as int);
    lemma_align_up(CODE_OFF + l.rx_len, PAGE as int);
    lemma_align_up(l.data_vaddr + mc.data.len(), PAGE as int);
    lemma_align_up(l.data_off + mc.data.len(), 8);
    lemma_align_up(l.symtab_off + l.symtab_len, 8);
    lemma_align_up(l.strtab_off + l.strtab_len, 8);
    lemma_align_up(l.shstrtab_off + shstrtab().len(), 8);
}

/// Applies the relocations to copies of the code and the data.
fn relocate(mc: &MachineCode, l: Ghost<Layout>, plan: &Plan, code_vaddr: u64) -> (r: (
    Vec<u8>,
    Vec<u8>,
))
    requires
        plan.is(l@),
        code_vaddr == l@.code_vaddr(),
        l@.code_vaddr() + mc@.code.len() <= l@.data_vaddr,
        l@.data_vaddr + mc@.data.len() <= u64::MAX,
        8 <= l@.data_vaddr,
        forall|k: int| 0 <= k < mc@.relocs.len() ==> reloc_ready(mc@, l@, #[trigger] mc@.relocs[k]),
    ensures
        (r.0@, r.1@) == relocated(mc@, l@, mc@.relocs.len() as int),
{
    let mut code: Vec<u8> = Vec::new();
    push_bytes(&mut code, mc.code.as_slice());
    let mut data: Vec<u8> = Vec::new();
    push_bytes(&mut data, mc.data.as_slice());
    proof {
        lemma_empty_front(mc.code@);
        lemma_empty_front(mc.data@);
    }
    let mut k: usize = 0;
    while k < mc.relocs.len()
        invariant
            k <= mc.relocs@.len(),
            plan.is(l@),
            code_vaddr == l@.code_vaddr(),
            l@.code_vaddr() + mc@.code.len() <= l@.data_vaddr,
            l@.data_vaddr + mc@.data.len() <= u64::MAX,
            8 <= l@.data_vaddr,
            forall|k: int|
                0 <= k < mc@.relocs.len() ==> reloc_ready(mc@, l@, #[trigger] mc@.relocs[k]),
            (code@, data@) == relocated(mc@, l@, k as int),
        decreases mc.relocs.len() - k,
    {
        let r: Reloc = mc.relocs[k];
        proof {
            assert(reloc_ready(mc@, l@, mc@.relocs[k as int]));
            lemma_relocated_len(mc@, l@, k as int);
        }
        let to: u64 = resolve(mc, l, plan, code_vaddr, &r.sym).unwrap();
        let mut part: Vec<u8> = Vec::new();
        match (r.section, r.kind) {
            (Section::Code, RelocKind::Abs64) => {
                push_u64(&mut part, to);
                proof {
                    lemma_empty_front(le64(to));
                }
                write_at(&mut code, r.site, part.as_slice());
            },
            (Section::Code, RelocKind::Rel32Call) => {
                let from: u64 = code_vaddr + r.site as u64 + 4;
                push_u32(&mut part, difference32(to, from));
                proof {
                    lemma_empty_front(le32(wrap32(to - from)));
                }
                write_at(&mut code, r.site, part.as_slice());
            },
            (Section::Data, RelocKind::Abs64) => {
                push_u64(&mut part, to);
                proof {
                    lemma_empty_front(le64(to));
                }
                write_at(&mut data, r.site, part.as_slice());
            },
            (Section::Data, RelocKind::Rel32Call) => {},
        }
        k += 1;
    }
    (code, data)
}

/// The section headers.
fn build_section_headers(mc: &MachineCode, l: Ghost<Layout>, plan: &Plan) -> (v: Vec<u8>)
    requires
        plan.is(l@),
    ensures
        v@ == section_headers(mc@, l@),
{
    let mut v: Vec<u8> = Vec::new();
    proof {
        lemma_empty_front(zeros(64));
    }
    push_zeros(&mut v, 64);
    push_bytes(
        &mut v,
        write_sh(
            1,
            1,
            6,
            BASE_VADDR + CODE_OFF as u64,
            CODE_OFF as u64,
            plan.rx_len as u64,
            0,
            0,
            8,
            0,
        ).as_slice(),
    );
    push_bytes(
        &mut v,
        write_sh(
            6,
            1,
            6,
            plan.data_vaddr,
            plan.data_off as u64,
            mc.data.len() as u64,
            0,
            0,
            8,
            0,
        ).as_slice(),
    );
    push_bytes(
        &mut v,
        write_sh(11, 8, 6, plan.heap_vaddr, 0, plan.heap_len, 0, 0, 8, 0).as_slice(),
    );
    push_bytes(
        &mut v,
        write_sh(
            15,
            2,
            0,
            0,
            plan.symtab_off as u64,
            plan.symtab_len as u64,
            5,
            1,
            0,
            24,
        ).as_slice(),
    );
    push_bytes(
        &mut v,
        write_sh(
            22,
            3,
            0,
            0,
            plan.strtab_off as u64,
            plan.strtab_len as u64,
            0,
            0,
            0,
            0,
        ).as_slice(),
    );
    v
}

pub proof fn lemma_front_len(mc: McView, l: Layout)
    requires
        l.preamble == 0 || l.preamble >= 10,
    ensures
        front(mc, l).len() == CODE_OFF + l.preamble + relocated(
            mc,
            l,
            mc.relocs.len() as int,
        ).0.len(),
{
    lemma_elf_header_len(l);
    lemma_program_header_len(
        5,
        0,
        BASE_VADDR as int,
        CODE_OFF + l.rx_len,
        CODE_OFF + l.rx_len,
    );
    let n = mc.data.len() as int;
    lemma_program_header_len(6, l.data_off, l.data_vaddr, n, n);
    lemma_program_header_len(6, l.data_off, l.heap_vaddr, 0, l.heap_len);
    assert(preamble_bytes(l.preamble).len() == l.preamble);
}

pub proof fn lemma_elf_header_len(l: Layout)
    ensures
        elf_header(l).len() == 64,
{
    reveal(elf_header);
}

pub proof fn lemma_program_header_len(flags: u32, off: int, vaddr: int, filesz: int, memsz: int)
    ensures
        program_header(flags, off, vaddr, filesz, memsz).len() == 56,
{
    reveal(program_header);
}

/// Headers, preamble and code.
fn build_front(mc: &MachineCode, l: Ghost<Layout>, plan: &Plan, code: &Vec<u8>) -> (v: Vec<u8>)
    requires
        plan.is(l@),
        l@.preamble == 0 || l@.preamble >= 10,
        CODE_OFF + l@.rx_len <= u64::MAX,
        code@ == relocated(mc@, l@, mc@.relocs.len() as int).0,
    ensures
        v@ == front(mc@, l@),
        v@.len() == CODE_OFF + l@.preamble + code@.len(),
{
    let rx_end: u64 = CODE_OFF as u64 + plan.rx_len as u64;
    let n: u64 = mc.data.len() as u64;
    let mut v: Vec<u8> = file_header(plan.shoff as u64);
    push_bytes(&mut v, write_ph(5, 0, BASE_VADDR, rx_end, rx_end).as_slice());
    push_bytes(&mut v, write_ph(6, plan.data_off as u64, plan.data_vaddr, n, n).as_slice());
    push_bytes(
        &mut v,
        write_ph(6, plan.data_off as u64, plan.heap_vaddr, 0, plan.heap_len).as_slice(),
    );
    let mut pre: Vec<u8> = Vec::new();
    if plan.preamble > 0 {
        push_bytes(&mut pre, JUMP_OVER_MAGIC.as_slice());
        push_bytes(&mut pre, MAGIC.as_slice());
        proof {
            lemma_empty_front(JUMP_OVER_MAGIC@);
        }
        push_pad(&mut pre, plan.preamble);
    }
    proof {
        assert(pre@ =~= preamble_bytes(l@.preamble));
    }
    push_bytes(&mut v, pre.as_slice());
    push_bytes(&mut v, code.as_slice());
    proof {
        lemma_front_len(mc@, l@);
    }
    v
}

proof fn lemma_fits_symbols(mc: McView, format: ContainerFormat, entry_preamble: bool)
    requires
        layout_fits(layout_of(mc, format, entry_preamble)),
    ensures
        24 * (mc.fn_bases.len() + 3) <= usize::MAX,
{
    let n = mc.fn_bases.len() as int;
    lemma_layout(mc, format, entry_preamble);
    lemma_symtab_len(n, n + 2);
}

impl Writer {
    /// Whether an image of `mc` can be written.
    pub fn can_write_image(&self, mc: &MachineCode, format: &ContainerFormat, entry_preamble: bool) -> (r:
        bool)
        ensures
            r == image_ready(mc@, *format, entry_preamble),
    {
        if entry_preamble && format.preamble_len < 10 {
            return false;
        }
        let n: usize = mc.fn_bases.len();
        if n > (usize::MAX - 72) / 24 {
            proof {
                if layout_fits(layout_of(mc@, *format, entry_preamble)) {
                    lemma_fits_symbols(mc@, *format, entry_preamble);
                }
            }
            return false;
        }
        let (symbols, names) = build_symbols(n);
        let sections: &[u8] = "\0.text\0.data\0.bss\0.symtab\0.strtab".as_bytes();
        let plan: Plan = match plan_layout(
            mc,
            format,
            entry_preamble,
            symbols.len(),
            names.len(),
            sections.len(),
        ) {
            Some(plan) => plan,
            None => {
                return false;
            },
        };
        let ghost l = layout_of(mc@, *format, entry_preamble);
        proof {
            lemma_layout(mc@, *format, entry_preamble);
        }
        let code_vaddr: u64 = plan.code_vaddr(Ghost(l));
        let mut k: usize = 0;
        while k < mc.relocs.len()
            invariant
                k <= mc.relocs@.len(),
                plan.is(l),
                code_vaddr == l.code_vaddr(),
                l.data_vaddr + mc@.data.len() <= u64::MAX,
                8 <= l.data_vaddr,
                l == layout_of(mc@, *format, entry_preamble),
                forall|j: int| 0 <= j < k ==> reloc_ready(mc@, l, #[trigger] mc@.relocs[j]),
            decreases mc.relocs.len() - k,
        {
            let r: Reloc = mc.relocs[k];
            let fits: bool = match (r.section, r.kind) {
                (Section::Code, RelocKind::Abs64) => mc.code.len() >= 8 && r.site <= mc.code.len() - 8,
                (Section::Code, RelocKind::Rel32Call) => mc.code.len() >= 4 && r.site
                    <= mc.code.len() - 4,
                (Section::Data, RelocKind::Abs64) => mc.data.len() >= 8 && r.site <= mc.data.len() - 8,
                (Section::Data, RelocKind::Rel32Call) => true,
            };
            let known: Option<u64> = resolve(mc, Ghost(l), &plan, code_vaddr, &r.sym);
            if !fits || known.is_none() {
                proof {
                    assert(!reloc_ready(mc@, l, mc@.relocs[k as int]));
                }
                return false;
            }
            proof {
                assert(reloc_ready(mc@, l, mc@.relocs[k as int]));
            }
            k += 1;
        }
        true
    }

    /// Writes the image of `mc`.
    pub fn write_image(&self, mc: &MachineCode, format: &ContainerFormat, entry_preamble: bool) -> (r:
        Result<Vec<u8>, TargetError>)
        requires
            image_ready(mc@, *format, entry_preamble),
        ensures
            r matches Ok(img) && img@ == image_of(mc@, layout_of(mc@, *format, entry_preamble)),
    {
        let ghost l = layout_of(mc@, *format, entry_preamble);
        let n: usize = mc.fn_bases.len();
        proof {
            lemma_layout(mc@, *format, entry_preamble);
            lemma_fits_symbols(mc@, *format, entry_preamble);
            lemma_relocated_len(mc@, l, mc@.relocs.len() as int);
        }
        let (symbols, names) = build_symbols(n);
        let sections: &[u8] = "\0.text\0.data\0.bss\0.symtab\0.strtab".as_bytes();
        let plan: Plan = plan_layout(
            mc,
            format,
            entry_preamble,
            symbols.len(),
            names.len(),
            sections.len(),
        ).unwrap();
        let code_vaddr: u64 = plan.code_vaddr(Ghost(l));
        let (code, data) = relocate(mc, Ghost(l), &plan, code_vaddr);
        let mut img: Vec<u8> = build_front(mc, Ghost(l), &plan, &code);
        push_pad(&mut img, plan.data_off);
        push_bytes(&mut img, data.as_slice());
        push_pad(&mut img, plan.symtab_off);
        push_bytes(&mut img, symbols.as_slice());
        push_pad(&mut img, plan.strtab_off);
        push_bytes(&mut img, names.as_slice());
        push_pad(&mut img, plan.shstrtab_off);
        push_bytes(&mut img, sections);
        push_pad(&mut img, plan.shoff);
        push_bytes(&mut img, build_section_headers(mc, Ghost(l), &plan).as_slice());
        Ok(img)
    }

    /// Writes the shared object of `mc`.
    pub fn write_shared_library(&self, mc: &MachineCode, format: &ContainerFormat) -> (r: Result<
        Vec<u8>,
        TargetError,
    >)
        requires
            shlib::shared_ready(mc@),
        ensures
            r matches Ok(img) && img@ == shlib::image_of(mc@, format.format_version),
    {
        shlib::write_shared_library(mc, format)
    }
}

// ---- laws of the image

/// The image has the size of its layout. The header of the tool chain, code,
/// data, symbols, names and section headers lie at their offsets.
pub proof fn image_holds_its_pieces(mc: McView, format: ContainerFormat, entry_preamble: bool)
    requires
        entry_preamble ==> format.preamble_len >= 10,
    ensures
        ({
            let l = layout_of(mc, format, entry_preamble);
            let img = image_of(mc, l);
            let n = mc.fn_bases.len() as int;
            let (code, data) = relocated(mc, l, mc.relocs.len() as int);
            let code_at = CODE_OFF + l.preamble;
            &&& img.len() == l.total()
            &&& img.subrange(code_at, code_at + mc.code.len()) == code
            &&& img.subrange(l.data_off, l.data_off + mc.data.len()) == data
            &&& img.subrange(l.symtab_off, l.symtab_off + l.symtab_len) == symtab(n, n + 2)
            &&& img.subrange(l.strtab_off, l.strtab_off + l.strtab_len) == strtab(n, n + 2)
            &&& img.subrange(l.shoff, l.shoff + 384) == section_headers(mc, l)
            &&& img.subrange(0, 64) == elf_header(l)
            &&& img.subrange(CODE_OFF as int, code_at) == preamble_bytes(l.preamble)
        }),
{
    let l = layout_of(mc, format, entry_preamble);
    let img = image_of(mc, l);
    let n = mc.fn_bases.len() as int;
    let (code, data) = relocated(mc, l, mc.relocs.len() as int);
    lemma_layout(mc, format, entry_preamble);
    lemma_relocated_len(mc, l, mc.relocs.len() as int);
    lemma_front_len(mc, l);
    lemma_section_headers_len(mc, l);
    let f = front(mc, l);
    lemma_pieces(
        f,
        (l.data_off, l.symtab_off, l.strtab_off, l.shstrtab_off, l.shoff),
        (data, symtab(n, n + 2), strtab(n, n + 2), shstrtab(), section_headers(mc, l)),
    );
    let code_at = CODE_OFF + l.preamble;
    lemma_front_pieces(mc, l);
    assert(img.subrange(0, 64) =~= img.subrange(0, f.len() as int).subrange(0, 64));
    assert(img.subrange(CODE_OFF as int, code_at) =~= img.subrange(0, f.len() as int).subrange(
        CODE_OFF as int,
        code_at,
    ));
    assert(img.subrange(code_at, code_at + mc.code.len()) =~= img.subrange(
        0,
        f.len() as int,
    ).subrange(code_at, code_at + mc.code.len()));
}

proof fn lemma_le_len(x: u64, y: u32)
    ensures
        le64(x).len() == 8,
        le32(y).len() == 4,
{
}

#[verifier::spinoff_prover]
proof fn lemma_section_header_len(
    name: u32,
    kind: u32,
    flags: int,
    addr: int,
    off: int,
    size: int,
    link: u32,
    info: u32,
    align: u64,
    entry: u64,
)
    ensures
        section_header(name, kind, flags, addr, off, size, link, info, align, entry).len() == 64,
{
    reveal(section_header);
    lemma_le_len(flags as u64, name);
    lemma_le_len(addr as u64, kind);
    lemma_le_len(off as u64, link);
    lemma_le_len(size as u64, info);
    lemma_le_len(align, name);
    lemma_le_len(entry, name);
}

pub proof fn lemma_section_headers_len(mc: McView, l: Layout)
    ensures
        section_headers(mc, l).len() == 384,
{
    let n = mc.data.len() as int;
    lemma_section_header_len(
        1,
        1,
        6,
        BASE_VADDR + CODE_OFF,
        CODE_OFF as int,
        l.rx_len,
        0,
        0,
        8,
        0,
    );
    lemma_section_header_len(6, 1, 6, l.data_vaddr, l.data_off, n, 0, 0, 8, 0);
    lemma_section_header_len(11, 8, 6, l.heap_vaddr, 0, l.heap_len, 0, 0, 8, 0);
    lemma_section_header_len(15, 2, 0, 0, l.symtab_off, l.symtab_len, 5, 1, 0, 24);
    lemma_section_header_len(22, 3, 0, 0, l.strtab_off, l.strtab_len, 0, 0, 0, 0);
}

proof fn lemma_front_pieces(mc: McView, l: Layout)
    requires
        l.preamble == 0 || l.preamble >= 10,
    ensures
        ({
            let code = relocated(mc, l, mc.relocs.len() as int).0;
            let code_at = CODE_OFF + l.preamble;
            &&& front(mc, l).len() == code_at + code.len()
            &&& front(mc, l).subrange(0, 64) == elf_header(l)
            &&& front(mc, l).subrange(CODE_OFF as int, code_at) == preamble_bytes(l.preamble)
            &&& front(mc, l).subrange(code_at, code_at + code.len()) == code
        }),
{
    let code = relocated(mc, l, mc.relocs.len() as int).0;
    let h = elf_header(l);
    let n = mc.data.len() as int;
    let p1 = program_header(5, 0, BASE_VADDR as int, CODE_OFF + l.rx_len, CODE_OFF + l.rx_len);
    let p2 = program_header(6, l.data_off, l.data_vaddr, n, n);
    let p3 = program_header(6, l.data_off, l.heap_vaddr, 0, l.heap_len);
    lemma_front_len(mc, l);
    lemma_elf_header_len(l);
    lemma_front_split(h, p1, p2, p3, preamble_bytes(l.preamble), code);
}

proof fn lemma_front_split(
    h: Seq<u8>,
    p1: Seq<u8>,
    p2: Seq<u8>,
    p3: Seq<u8>,
    pre: Seq<u8>,
    code: Seq<u8>,
)
    ensures
        ({
            let f = h + p1 + p2 + p3 + pre + code;
            &&& f.subrange(0, h.len() as int) == h
            &&& f.subrange(f.len() - code.len() - pre.len(), f.len() - code.len()) == pre
            &&& f.subrange(f.len() - code.len(), f.len() as int) == code
        }),
{
    let f = h + p1 + p2 + p3 + pre + code;
    assert(f.subrange(f.len() - code.len() - pre.len(), f.len() - code.len()) =~= pre);
    assert(f.subrange(0, h.len() as int) =~= h);
    assert(f.subrange(f.len() - code.len(), f.len() as int) =~= code);
}

/// The entry point leads to the code: directly, or over the jump of a header
/// of just the jump and the marker.
pub proof fn entry_reaches_the_code(mc: McView, format: ContainerFormat, entry_preamble: bool)
    requires
        entry_preamble ==> format.preamble_len == 10,
    ensures
        ({
            let l = layout_of(mc, format, entry_preamble);
            let img = image_of(mc, l);
            let entry = u64_at(img, 24) - BASE_VADDR;
            let landed = if entry_preamble {
                entry + 2 + img[entry + 1]
            } else {
                entry
            };
            &&& entry_preamble ==> img[entry] == 0xEB
            &&& img.subrange(landed, landed + mc.code.len()) == relocated(
                mc,
                l,
                mc.relocs.len() as int,
            ).0
        }),
{
    let l = layout_of(mc, format, entry_preamble);
    let img = image_of(mc, l);
    image_holds_its_pieces(mc, format, entry_preamble);
    lemma_layout(mc, format, entry_preamble);
    lemma_read_piece(img, 0, 64, 24);
    lemma_entry_field(l);
    if entry_preamble {
        let pre = img.subrange(CODE_OFF as int, CODE_OFF + 10);
        assert(pre[0] == img[CODE_OFF as int] && pre[1] == img[CODE_OFF + 1]);
        assert(marker().len() == 10);
        assert(marker()[0] == JUMP_OVER_MAGIC@[0] && marker()[1] == JUMP_OVER_MAGIC@[1]);
    }
}

proof fn lemma_entry_field(l: Layout)
    ensures
        u64_at(elf_header(l), 24) == BASE_VADDR + CODE_OFF,
{
    reveal(elf_header);
    let front = seq![0x7Fu8, 0x45, 0x4C, 0x46, 2, 1, 1, 0] + zeros(8) + le16(2) + le16(62) + le32(1);
    let entry = (BASE_VADDR + CODE_OFF) as u64;
    assert(front.len() == 24);
    assert(elf_header(l).subrange(24, 32) =~= le64(entry));
    lemma_u64_at(elf_header(l), 24, entry);
}

/// The data segment is loaded at the distance from its file offset that the
/// first segment is, in whole pages, and the heap lies behind it.
pub proof fn segments_line_up(mc: McView, format: ContainerFormat, entry_preamble: bool)
    ensures
        ({
            let l = layout_of(mc, format, entry_preamble);
            &&& l.data_vaddr - l.data_off == BASE_VADDR
            &&& l.data_vaddr % PAGE as int == 0
            &&& l.heap_vaddr % PAGE as int == 0
            &&& l.heap_len % PAGE as int == 0
            &&& BASE_VADDR + CODE_OFF + l.rx_len <= l.data_vaddr
            &&& l.data_vaddr + mc.data.len() <= l.heap_vaddr
            &&& mc.heap_size <= l.heap_len
        }),
{
    let l = layout_of(mc, format, entry_preamble);
    lemma_layout(mc, format, entry_preamble);
    lemma_align_up(mc.heap_size as int, PAGE as int);
    lemma_aligned_apart(CODE_OFF + l.rx_len);
    lemma_align_up(l.data_vaddr + mc.data.len(), PAGE as int);
}

/// The base address is a whole number of pages.
proof fn lemma_aligned_apart(x: int)
    requires
        0 <= x,
    ensures
        align_up(BASE_VADDR + x, PAGE as int) == BASE_VADDR + align_up(x, PAGE as int),
        align_up(BASE_VADDR + x, PAGE as int) % PAGE as int == 0,
{
    lemma_align_up(BASE_VADDR + x, PAGE as int);
    lemma_align_up(x, PAGE as int);
}

/// Number of bytes that `r` patches.
pub open spec fn patch_width(r: Reloc) -> int {
    match (r.section, r.kind) {
        (_, RelocKind::Abs64) => 8,
        (Section::Code, RelocKind::Rel32Call) => 4,
        (Section::Data, RelocKind::Rel32Call) => 0,
    }
}

/// Whether `r` and `q` patch no byte in common.
pub open spec fn apart(r: Reloc, q: Reloc) -> bool {
    r.section != q.section || r.site + patch_width(r) <= q.site || q.site + patch_width(q) <= r.site
}

/// What relocation `k` reads as in the two blobs.
spec fn reloc_holds(mc: McView, l: Layout, r: Reloc, code: Seq<u8>, data: Seq<u8>) -> bool {
    let to = address(mc, l, r.sym);
    match (r.section, r.kind) {
        (Section::Code, RelocKind::Abs64) => u64_at(code, r.site as int) == to,
        (Section::Code, RelocKind::Rel32Call) => u32_at(code, r.site as int) == wrap32(
            to - (l.code_vaddr() + r.site + 4),
        ),
        (Section::Data, RelocKind::Abs64) => u64_at(data, r.site as int) == to,
        (Section::Data, RelocKind::Rel32Call) => true,
    }
}

/// No address of a layout is negative.
pub proof fn lemma_address(mc: McView, format: ContainerFormat, entry_preamble: bool, sym: Sym)
    ensures
        0 <= address(mc, layout_of(mc, format, entry_preamble), sym),
{
    reveal(address);
    lemma_layout(mc, format, entry_preamble);
}

proof fn lemma_later_relocs(mc: McView, l: Layout, k: int, n: int)
    requires
        0 <= k < n <= mc.relocs.len(),
        reloc_ready(mc, l, mc.relocs[k]),
        forall|j: int| k < j < n ==> apart(mc.relocs[k], #[trigger] mc.relocs[j]),
        0 <= address(mc, l, mc.relocs[k].sym),
    ensures
        reloc_holds(mc, l, mc.relocs[k], relocated(mc, l, n).0, relocated(mc, l, n).1),
    decreases n,
{
    let r = mc.relocs[k];
    let q = mc.relocs[n - 1];
    let (code0, data0) = relocated(mc, l, n - 1);
    lemma_relocated_len(mc, l, n - 1);
    let to = address(mc, l, q.sym);
    let v = wrap32(to - (l.code_vaddr() + q.site + 4));
    if n == k + 1 {
        match (r.section, r.kind) {
            (Section::Code, RelocKind::Abs64) => lemma_put_u64(code0, r.site as int, to as u64),
            (Section::Code, RelocKind::Rel32Call) => lemma_put_u32(code0, r.site as int, v),
            (Section::Data, RelocKind::Abs64) => lemma_put_u64(data0, r.site as int, to as u64),
            (Section::Data, RelocKind::Rel32Call) => {},
        }
    } else {
        lemma_later_relocs(mc, l, k, n - 1);
        assert(apart(r, mc.relocs[n - 1]));
        match (q.section, q.kind) {
            (Section::Code, RelocKind::Abs64) => lemma_put_elsewhere(
                code0,
                q.site as int,
                le64(to as u64),
                r.site as int,
            ),
            (Section::Code, RelocKind::Rel32Call) => lemma_put_elsewhere(
                code0,
                q.site as int,
                le32(v),
                r.site as int,
            ),
            (Section::Data, RelocKind::Abs64) => lemma_put_elsewhere(
                data0,
                q.site as int,
                le64(to as u64),
                r.site as int,
            ),
            (Section::Data, RelocKind::Rel32Call) => {},
        }
    }
}

/// A relocation whose bytes no later one touches holds in the image: an
/// address site has the address of its symbol, and a call site the distance
/// from its end to its target.
pub proof fn relocations_hold(
    mc: McView,
    format: ContainerFormat,
    entry_preamble: bool,
    k: int,
)
    requires
        image_ready(mc, format, entry_preamble),
        0 <= k < mc.relocs.len(),
        forall|j: int| k < j < mc.relocs.len() ==> apart(mc.relocs[k], #[trigger] mc.relocs[j]),
    ensures
        ({
            let l = layout_of(mc, format, entry_preamble);
            let img = image_of(mc, l);
            let r = mc.relocs[k];
            let to = address(mc, l, r.sym);
            match (r.section, r.kind) {
                (Section::Code, RelocKind::Abs64) => u64_at(
                    img,
                    CODE_OFF + l.preamble + r.site,
                ) == to,
                (Section::Code, RelocKind::Rel32Call) => u32_at(
                    img,
                    CODE_OFF + l.preamble + r.site,
                ) == wrap32(to - (l.code_vaddr() + r.site + 4)),
                (Section::Data, RelocKind::Abs64) => u64_at(img, l.data_off + r.site) == to,
                (Section::Data, RelocKind::Rel32Call) => true,
            }
        }),
{
    let l = layout_of(mc, format, entry_preamble);
    let img = image_of(mc, l);
    let r = mc.relocs[k];
    let (code, data) = relocated(mc, l, mc.relocs.len() as int);
    image_holds_its_pieces(mc, format, entry_preamble);
    lemma_layout(mc, format, entry_preamble);
    assert(reloc_ready(mc, l, mc.relocs[k]));
    lemma_address(mc, format, entry_preamble, r.sym);
    lemma_later_relocs(mc, l, k, mc.relocs.len() as int);
    let code_at = CODE_OFF + l.preamble;
    lemma_read_piece(img, code_at, code_at + mc.code.len(), r.site as int);
    lemma_read_piece(img, l.data_off, l.data_off + mc.data.len(), r.site as int);
}

/// Whether `sym` lies in the code: a function or a helper.
pub open spec fn in_code(sym: Sym) -> bool {
    match sym {
        Sym::Fn(_) => true,
        Sym::HelperItoa => true,
        Sym::HelperItoaErr => true,
        Sym::HelperScanInt => true,
        Sym::HelperRetain => true,
        Sym::HelperRelease => true,
        Sym::HelperAlloc => true,
        Sym::HelperExcEnter => true,
        Sym::HelperExcPop => true,
        Sym::HelperExcThrow => true,
        Sym::HelperExcRethrow => true,
        Sym::HelperExcLoad => true,
        Sym::HelperExcClear => true,
        Sym::Import(_) => true,
        _ => false,
    }
}

/// Whether `r` is a call from the code to the code.
pub open spec fn is_call_in_code(r: Reloc) -> bool {
    r.section == Section::Code && r.kind == RelocKind::Rel32Call && in_code(r.sym)
}

proof fn lemma_same_calls(mc: McView, a: Layout, b: Layout, n: int)
    requires
        0 <= n <= mc.relocs.len(),
        forall|k: int| 0 <= k < mc.relocs.len() ==> is_call_in_code(#[trigger] mc.relocs[k]),
    ensures
        relocated(mc, a, n) == relocated(mc, b, n),
    decreases n,
{
    if n > 0 {
        let r = mc.relocs[n - 1];
        lemma_same_calls(mc, a, b, n - 1);
        assert(is_call_in_code(r));
        assert(address(mc, a, r.sym) - a.code_vaddr() == address(mc, b, r.sym) - b.code_vaddr())
            by {
            reveal(address);
        }
        assert(address(mc, a, r.sym) - (a.code_vaddr() + r.site + 4) == address(mc, b, r.sym) - (
        b.code_vaddr() + r.site + 4));
    }
}

/// What an image holds at its entry field and at its code.
proof fn lemma_entered_at_code(mc: McView, format: ContainerFormat, entry_preamble: bool)
    requires
        entry_preamble ==> format.preamble_len >= 10,
    ensures
        ({
            let l = layout_of(mc, format, entry_preamble);
            let img = image_of(mc, l);
            let at = CODE_OFF + l.preamble;
            &&& u64_at(img, 24) == BASE_VADDR + CODE_OFF
            &&& img.subrange(at, at + mc.code.len()) == relocated(
                mc,
                l,
                mc.relocs.len() as int,
            ).0
            &&& l.preamble == if entry_preamble {
                format.preamble_len as int
            } else {
                0
            }
        }),
{
    let l = layout_of(mc, format, entry_preamble);
    let img = image_of(mc, l);
    image_holds_its_pieces(mc, format, entry_preamble);
    lemma_layout(mc, format, entry_preamble);
    lemma_read_piece(img, 0, 64, 24);
    lemma_entry_field(l);
}

/// The jump and the marker stand at the entry of an image with a header.
proof fn lemma_marked(mc: McView, format: ContainerFormat)
    requires
        format.preamble_len >= 10,
    ensures
        ({
            let img = image_of(mc, layout_of(mc, format, true));
            let at = CODE_OFF as int;
            &&& img.subrange(at, at + 2) == JUMP_OVER_MAGIC@
            &&& img.subrange(at + 2, at + 10) == MAGIC@
        }),
{
    let p = format.preamble_len as int;
    let img = image_of(mc, layout_of(mc, format, true));
    let at = CODE_OFF as int;
    image_holds_its_pieces(mc, format, true);
    lemma_layout(mc, format, true);
    lemma_marker_ahead(img, at, p);
}

proof fn lemma_marker_ahead(img: Seq<u8>, at: int, p: int)
    requires
        10 <= p,
        0 <= at,
        at + p <= img.len(),
        img.subrange(at, at + p) == preamble_bytes(p),
    ensures
        img.subrange(at, at + 2) == JUMP_OVER_MAGIC@,
        img.subrange(at + 2, at + 10) == MAGIC@,
{
    let pre = preamble_bytes(p);
    assert(marker().len() == 10);
    assert(pre.subrange(0, 2) =~= JUMP_OVER_MAGIC@);
    assert(pre.subrange(2, 10) =~= MAGIC@);
    assert(img.subrange(at, at + 2) =~= img.subrange(at, at + p).subrange(0, 2));
    assert(img.subrange(at + 2, at + 10) =~= img.subrange(at, at + p).subrange(2, 10));
}

/// Code that only calls into itself is written with the same bytes whether an
/// entry header stands before it or not: the distances do not change. Both
/// images are entered at the same address, the one at the jump and the marker
/// of the header, the other at the code.
pub proof fn calls_do_not_see_the_header(mc: McView, format: ContainerFormat)
    requires
        format.preamble_len >= 10,
        forall|k: int| 0 <= k < mc.relocs.len() ==> is_call_in_code(#[trigger] mc.relocs[k]),
    ensures
        ({
            let a = image_of(mc, layout_of(mc, format, false));
            let b = image_of(mc, layout_of(mc, format, true));
            let n = mc.code.len();
            let at = CODE_OFF as int;
            &&& b.subrange(at, at + 2) == JUMP_OVER_MAGIC@
            &&& b.subrange(at + 2, at + 10) == MAGIC@
            &&& b.subrange(at + format.preamble_len, at + format.preamble_len + n) == a.subrange(
                at,
                at + n,
            )
            &&& u64_at(a, 24) == BASE_VADDR + CODE_OFF
            &&& u64_at(b, 24) == BASE_VADDR + CODE_OFF
        }),
{
    let la = layout_of(mc, format, false);
    let lb = layout_of(mc, format, true);
    lemma_entered_at_code(mc, format, false);
    lemma_entered_at_code(mc, format, true);
    lemma_same_calls(mc, la, lb, mc.relocs.len() as int);
    lemma_marked(mc, format);
}

} // verus!
