//! Static `ET_EXEC` ELF writer tests (`Writer::write_image`).
//!
//! Covers both `entry_preamble` modes, the three-segment layout, and the
//! relocation-patching paths (Abs64 into code/data, Rel32Call). All inputs
//! are synthetic `MachineCode`s — no native exec required.

use linux_x86_64::container::{ContainerFormat, JUMP_OVER_MAGIC, MAGIC};
use linux_x86_64::target::{MachineCode, Reloc, RelocKind, Section, Sym};
use linux_x86_64::x86::elf::Writer;

const FORMAT: ContainerFormat = ContainerFormat { preamble_len: 10, format_version: 7 };

const BASE: u64 = 0x0040_0000;
const CODE_OFF: usize = 64 + 3 * 56; // 232
const PAGE: u64 = 0x1000;

fn read_u16(img: &[u8], at: usize) -> u16 {
    u16::from_le_bytes([img[at], img[at + 1]])
}

fn read_u32(img: &[u8], at: usize) -> u32 {
    u32::from_le_bytes([img[at], img[at + 1], img[at + 2], img[at + 3]])
}

fn read_u64(img: &[u8], at: usize) -> u64 {
    u64::from_le_bytes(img[at..at + 8].try_into().unwrap())
}

fn bare_mc() -> MachineCode {
    MachineCode {
        code: vec![0xc3],
        data: vec![],
        fn_bases: vec![0],
        vtable_offsets: vec![],
        vtable_names: vec![],
        static_offsets: vec![],
        static_names: vec![],
        helper_itoa: None,
        helper_itoa_err: None,
        helper_scan_int: None,
        helper_retain: None,
        helper_release: None,
        helper_alloc: None,
        helper_exc_enter: None,
        helper_exc_pop: None,
        helper_exc_throw: None,
        helper_exc_rethrow: None,
        helper_exc_load: None,
        helper_exc_clear: None,
        exc_state_offset: None,
        helper_argv: None,
        import_names: vec![],
        import_bases: vec![],
        import_abs: vec![],
        exports: vec![],
        export_takes_receiver: vec![],
        init_fn: None,
        relocs: vec![],
        heap_size: 0,
    }
}

fn mc_with_data(code: Vec<u8>, data: Vec<u8>) -> MachineCode {
    let mut mc = bare_mc();
    mc.code = code;
    mc.data = data;
    mc
}

#[test]
fn elf_header_is_x86_64_et_exec() {
    let img = Writer.write_image(&bare_mc(), &FORMAT, false).unwrap();
    assert_eq!(&img[0..4], b"\x7fELF");
    assert_eq!(img[4], 2, "ELFCLASS64");
    assert_eq!(img[5], 1, "little-endian");
    assert_eq!(read_u16(&img, 16), 2, "ET_EXEC");
    assert_eq!(read_u16(&img, 18), 62, "EM_X86_64");
    assert_eq!(read_u32(&img, 20), 1, "e_version");
    assert_eq!(read_u64(&img, 32), 64, "e_phoff");
    assert_eq!(read_u16(&img, 54), 56, "e_phentsize");
    assert_eq!(read_u16(&img, 56), 3, "e_phnum");
    assert_eq!(read_u16(&img, 58), 6, "e_shnum");
}

#[test]
fn entry_point_points_at_code_start() {
    let img = Writer.write_image(&bare_mc(), &FORMAT, false).unwrap();
    let entry = read_u64(&img, 24);
    assert_eq!(entry, BASE + CODE_OFF as u64, "e_entry = BASE + code_off (no preamble)");
}

#[test]
fn entry_preamble_shifts_code_and_entry() {
    let img = Writer.write_image(&bare_mc(), &FORMAT, true).unwrap();
    // Preamble sits at code_off; the 2-byte jump + 8-byte magic are written.
    assert_eq!(&img[CODE_OFF..CODE_OFF + 2], &JUMP_OVER_MAGIC);
    assert_eq!(&img[CODE_OFF + 2..CODE_OFF + 10], &MAGIC);
    // e_entry is the fixed segment start (BASE + code_off) in both modes; the
    // jump-over-magic preamble at that address redirects into the real code.
    let entry = read_u64(&img, 24);
    assert_eq!(entry, BASE + CODE_OFF as u64);
}

#[test]
fn code_is_placed_after_optional_preamble() {
    let code: Vec<u8> = vec![0x55, 0x48, 0x89, 0xe5, 0xc3];

    // No preamble: code at CODE_OFF.
    let img = Writer.write_image(&mc_with_data(code.clone(), vec![]), &FORMAT, false).unwrap();
    assert_eq!(&img[CODE_OFF..CODE_OFF + code.len()], &code[..]);

    // With preamble: code pushed a preamble later.
    let img = Writer.write_image(&mc_with_data(code.clone(), vec![]), &FORMAT, true).unwrap();
    let at = CODE_OFF + FORMAT.preamble_len;
    assert_eq!(&img[at..at + code.len()], &code[..]);
}

#[test]
fn data_segment_is_page_aligned_and_embedded() {
    // 5-byte code, 16-byte data. data_vaddr = align(0x4000e8+5, 0x1000) = 0x401000.
    let code = vec![0x90u8; 5];
    let data: Vec<u8> = vec![1, 2, 3, 4, 5, 6, 7, 8, 9, 10, 11, 12, 13, 14, 15, 16];
    let img = Writer.write_image(&mc_with_data(code, data.clone()), &FORMAT, false).unwrap();

    let code_vaddr = BASE + CODE_OFF as u64;
    let data_vaddr = (code_vaddr + 5).div_ceil(PAGE) * PAGE;
    assert_eq!(data_vaddr, BASE + PAGE, "data vaddr is the next page");

    // RW segment (phdr index 1) carries the data vaddr + size.
    let ph_at = 64 + 1 * 56;
    assert_eq!(read_u32(&img, ph_at), 1, "PT_LOAD");
    assert_eq!(read_u32(&img, ph_at + 4), 6, "R|W");
    assert_eq!(read_u64(&img, ph_at + 16), data_vaddr, "data vaddr");
    assert_eq!(read_u64(&img, ph_at + 32), 16, "data filesz");

    // Data blob is physically at the page-aligned file offset.
    let data_file_off = ((CODE_OFF as u64 + 5).div_ceil(PAGE)) * PAGE;
    assert_eq!(data_file_off, PAGE);
    assert_eq!(&img[PAGE as usize..PAGE as usize + 16], &data[..]);
}

#[test]
fn heap_bss_segment_has_zero_filesz() {
    let mut mc = bare_mc();
    mc.heap_size = 0x2000; // 2 pages
    let img = Writer.write_image(&mc, &FORMAT, false).unwrap();

    let code_vaddr = BASE + CODE_OFF as u64;
    let data_vaddr = (code_vaddr + 1).div_ceil(PAGE) * PAGE; // data empty
    let heap_vaddr = (data_vaddr + 0).div_ceil(PAGE) * PAGE; // == data_vaddr

    let ph_at = 64 + 2 * 56;
    assert_eq!(read_u32(&img, ph_at), 1, "PT_LOAD");
    assert_eq!(read_u64(&img, ph_at + 16), heap_vaddr, "heap vaddr");
    assert_eq!(read_u64(&img, ph_at + 32), 0, "BSS filesz = 0");
    assert_eq!(read_u64(&img, ph_at + 40), 0x2000, "heap memsz = 2 pages");
}

#[test]
fn abs64_reloc_patches_code_with_symbol_address() {
    // Code blob: a 10-byte window with the 8-byte immediate at site 2.
    let mut mc = mc_with_data(vec![0x48, 0xb9, 0, 0, 0, 0, 0, 0, 0, 0, 0xc3], vec![0u8; 8]);
    // String(0) lives at data_vaddr + 0.
    mc.relocs = vec![Reloc {
        kind: RelocKind::Abs64,
        section: Section::Code,
        site: 2,
        sym: Sym::String(0),
    }];
    let img = Writer.write_image(&mc, &FORMAT, false).unwrap();

    let code_vaddr = BASE + CODE_OFF as u64;
    let data_vaddr = (code_vaddr + 11).div_ceil(PAGE) * PAGE;
    // Immediate at file offset CODE_OFF + 2.
    let patched = read_u64(&img, CODE_OFF + 2);
    assert_eq!(patched, data_vaddr, "Abs64 in code resolved to the data symbol");
}

#[test]
fn abs64_reloc_patches_data_blob() {
    let mut mc = mc_with_data(vec![0x90u8; 4], vec![0u8; 8]);
    // Fn(0) lives at code_blob_vaddr + fn_bases[0]=0 → code_vaddr.
    mc.relocs = vec![Reloc {
        kind: RelocKind::Abs64,
        section: Section::Data,
        site: 0,
        sym: Sym::Fn(0),
    }];
    let img = Writer.write_image(&mc, &FORMAT, false).unwrap();

    let code_vaddr = BASE + CODE_OFF as u64;
    let data_vaddr = (code_vaddr + 4).div_ceil(PAGE) * PAGE;
    let data_file_off = ((CODE_OFF as u64 + 4).div_ceil(PAGE)) * PAGE;
    let patched = read_u64(&img, data_file_off as usize);
    assert_eq!(patched, code_vaddr, "Abs64 in data resolved to the function");
    let _ = data_vaddr;
}

#[test]
fn rel32call_reloc_patches_relative_offset() {
    // A 5-byte `call rel32` at code offset 0 (opcode 0xE8, imm at 1..5).
    // The reloc `site` is the offset of the 4-byte immediate = 1.
    let mut mc = mc_with_data(vec![0xe8, 0, 0, 0, 0], vec![]);
    mc.fn_bases = vec![10]; // target body at code_blob + 10
    mc.relocs = vec![Reloc {
        kind: RelocKind::Rel32Call,
        section: Section::Code,
        site: 1,
        sym: Sym::Fn(0),
    }];
    let img = Writer.write_image(&mc, &FORMAT, false).unwrap();

    let code_vaddr = BASE + CODE_OFF as u64;
    // The reloc engine computes instr_vaddr = code_blob_vaddr + site = code_vaddr + 1.
    // rel = target - (instr_vaddr + 4) = (code_vaddr+10) - (code_vaddr+1+4) = 5.
    let expected_rel = 5u32;
    let patched = read_u32(&img, CODE_OFF + 1);
    assert_eq!(patched, expected_rel, "Rel32Call resolved to a relative displacement");
}

#[test]
fn heap_base_symbol_resolves_to_heap_vaddr() {
    let mut mc = mc_with_data(vec![0x90u8; 4], vec![0u8; 8]);
    mc.heap_size = 0x1000;
    mc.relocs = vec![Reloc {
        kind: RelocKind::Abs64,
        section: Section::Data,
        site: 0,
        sym: Sym::HeapBase,
    }];
    let img = Writer.write_image(&mc, &FORMAT, false).unwrap();

    let code_vaddr = BASE + CODE_OFF as u64;
    let data_vaddr = (code_vaddr + 4).div_ceil(PAGE) * PAGE;
    let heap_vaddr = (data_vaddr + 8).div_ceil(PAGE) * PAGE;
    let data_file_off = ((CODE_OFF as u64 + 4).div_ceil(PAGE)) * PAGE;
    let patched = read_u64(&img, data_file_off as usize);
    assert_eq!(patched, heap_vaddr, "HeapBase resolved to the heap segment vaddr");
}

#[test]
fn unlinked_import_is_not_writable() {
    let mut mc = mc_with_data(vec![0x90u8; 8], vec![]);
    mc.relocs = vec![Reloc {
        kind: RelocKind::Abs64,
        section: Section::Code,
        site: 0,
        sym: Sym::Import(0),
    }];
    assert!(!Writer.can_write_image(&mc, &FORMAT, false));
    mc.import_bases = vec![4];
    assert!(Writer.can_write_image(&mc, &FORMAT, false));
    let img = Writer.write_image(&mc, &FORMAT, false).unwrap();
    assert_eq!(read_u64(&img, CODE_OFF), BASE + CODE_OFF as u64 + 4);
}

#[test]
fn sites_outside_their_blob_are_not_writable() {
    let mut mc = mc_with_data(vec![0x90u8; 9], vec![0u8; 8]);
    mc.relocs = vec![Reloc {
        kind: RelocKind::Abs64,
        section: Section::Code,
        site: 1,
        sym: Sym::String(0),
    }];
    assert!(Writer.can_write_image(&mc, &FORMAT, true));
    mc.relocs[0].site = 2;
    assert!(!Writer.can_write_image(&mc, &FORMAT, true));
    mc.relocs[0].section = Section::Data;
    mc.relocs[0].site = 0;
    assert!(Writer.can_write_image(&mc, &FORMAT, true));
    mc.relocs[0].site = 1;
    assert!(!Writer.can_write_image(&mc, &FORMAT, true));
}

#[test]
fn argv_slot_is_the_last_data_word() {
    let mut mc = mc_with_data(vec![0u8; 8], vec![0u8; 24]);
    mc.helper_argv = Some(16);
    mc.relocs = vec![Reloc {
        kind: RelocKind::Abs64,
        section: Section::Code,
        site: 0,
        sym: Sym::ArgvRsp,
    }];
    let img = Writer.write_image(&mc, &FORMAT, false).unwrap();
    assert_eq!(read_u64(&img, CODE_OFF), BASE + PAGE + 16);
}

#[test]
fn relocations_follow_the_preamble() {
    let mut mc = mc_with_data(vec![0u8; 8], vec![]);
    mc.fn_bases = vec![3];
    mc.relocs = vec![Reloc {
        kind: RelocKind::Abs64,
        section: Section::Code,
        site: 0,
        sym: Sym::Fn(0),
    }];
    let img = Writer.write_image(&mc, &FORMAT, true).unwrap();
    let at = CODE_OFF + FORMAT.preamble_len;
    assert_eq!(read_u64(&img, at), BASE + at as u64 + 3);
}

#[test]
fn segments_hold_what_the_layout_says() {
    let mut mc = mc_with_data(vec![0x90u8; 0x1000], vec![7u8; 0x18]);
    mc.heap_size = 0x10;
    let img = Writer.write_image(&mc, &FORMAT, false).unwrap();
    // Code: file offset and address agree modulo a page.
    let code = 64;
    assert_eq!(read_u64(&img, code + 8) % PAGE, read_u64(&img, code + 16) % PAGE);
    // Data: two pages in, as the code crosses the first one.
    let data = 64 + 56;
    assert_eq!(read_u64(&img, data + 8), 2 * PAGE);
    assert_eq!(read_u64(&img, data + 16), BASE + 2 * PAGE);
    assert_eq!(&img[0x2000..0x2018], &[7u8; 0x18]);
    // Heap: the next page.
    let heap = 64 + 2 * 56;
    assert_eq!(read_u64(&img, heap + 16), BASE + 3 * PAGE);
    assert_eq!(read_u64(&img, heap + 32), 0);
    assert_eq!(read_u64(&img, heap + 40), PAGE);
}

#[test]
fn entry_jump_lands_on_the_code() {
    let code = vec![0xB8, 0x2A, 0, 0, 0, 0xC3];
    let img = Writer.write_image(&mc_with_data(code.clone(), vec![]), &FORMAT, true).unwrap();
    let entry = (read_u64(&img, 24) - BASE) as usize;
    assert_eq!(img[entry], 0xEB);
    let landed = entry + 2 + img[entry + 1] as usize;
    assert_eq!(&img[landed..landed + code.len()], &code[..]);
}

#[test]
fn section_headers_say_where_the_sections_are() {
    let mut mc = mc_with_data(vec![0x90u8; 20], vec![7u8; 5]);
    mc.heap_size = 0x10;
    let img = Writer.write_image(&mc, &FORMAT, false).unwrap();
    let shoff = read_u64(&img, 40) as usize;
    let at = |i: usize| shoff + 64 * i;
    assert!(img[at(0)..at(1)].iter().all(|&b| b == 0));
    // Type, flags, address, offset, size, link, info, alignment, entry size.
    let fields = |i: usize| {
        (
            read_u32(&img, at(i) + 4),
            read_u64(&img, at(i) + 8),
            read_u64(&img, at(i) + 16),
            read_u64(&img, at(i) + 24),
            read_u64(&img, at(i) + 32),
            read_u32(&img, at(i) + 40),
            read_u32(&img, at(i) + 44),
            read_u64(&img, at(i) + 48),
            read_u64(&img, at(i) + 56),
        )
    };
    assert_eq!(fields(1), (1, 6, BASE + CODE_OFF as u64, CODE_OFF as u64, 20, 0, 0, 8, 0));
    assert_eq!(fields(2), (1, 6, BASE + PAGE, PAGE, 5, 0, 0, 8, 0));
    assert_eq!(fields(3), (8, 6, BASE + 2 * PAGE, 0, PAGE, 0, 0, 8, 0));
    // Four symbols of 24 bytes behind the data.
    let symbols = fields(4);
    assert_eq!(symbols, (2, 0, 0, PAGE + 8, 96, 5, 1, 0, 24));
    let names = fields(5);
    assert_eq!(names, (3, 0, 0, PAGE + 8 + 96, 25, 0, 0, 0, 0));
    let strtab = names.3 as usize;
    assert_eq!(&img[strtab..strtab + 25], b"\0_start\0main\0__heap_base\0");
}

#[test]
fn calls_are_the_same_behind_an_entry_header() {
    let mut mc = mc_with_data(vec![0xE8, 0, 0, 0, 0, 0xE8, 0, 0, 0, 0, 0xC3], vec![1, 2, 3]);
    mc.fn_bases = vec![0, 10];
    mc.helper_alloc = Some(3);
    mc.relocs = vec![
        Reloc { kind: RelocKind::Rel32Call, section: Section::Code, site: 1, sym: Sym::Fn(1) },
        Reloc { kind: RelocKind::Rel32Call, section: Section::Code, site: 6, sym: Sym::HelperAlloc },
    ];
    let format = ContainerFormat { preamble_len: 13, format_version: 7 };
    let a = Writer.write_image(&mc, &format, false).unwrap();
    let b = Writer.write_image(&mc, &format, true).unwrap();
    assert_eq!(read_u32(&a, CODE_OFF + 1), 5);
    assert_eq!(read_u32(&a, CODE_OFF + 6), -7i32 as u32);
    assert_eq!(&b[CODE_OFF..CODE_OFF + 2], &JUMP_OVER_MAGIC);
    assert_eq!(&b[CODE_OFF + 2..CODE_OFF + 10], &MAGIC);
    assert_eq!(&b[CODE_OFF + 13..CODE_OFF + 24], &a[CODE_OFF..CODE_OFF + 11]);
    assert_eq!(read_u64(&a, 24), 0x4000E8);
    assert_eq!(read_u64(&b, 24), 0x4000E8);
}
