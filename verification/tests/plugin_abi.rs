//! The entry points and the pipeline from program to image.

use linux_x86_64::container::ContainerFormat;
use linux_x86_64::ir::{Block, Instr, IrFunction, Program, ReceiverKind, Terminator, VReg};
use linux_x86_64::mc_serialize::{decode, encode};
use linux_x86_64::target::{Reloc, RelocKind, Section, Sym};
use linux_x86_64::x86::runtime::Runtime;
use linux_x86_64::{
    lower_target, try_write_image_target, try_write_shared_target, write_image_target,
    write_shared_target,
};

const FORMAT: ContainerFormat = ContainerFormat { preamble_len: 10, format_version: 7 };

/// Snippets that are told apart by their first byte, each with room for an
/// address.
fn runtime() -> Runtime {
    let snippet = |mark: u8| {
        let mut v = vec![mark];
        v.extend_from_slice(&[0x90; 10]);
        v.push(0xC3);
        v
    };
    Runtime {
        itoa: snippet(0xA0),
        itoa_err: snippet(0xA1),
        scan_int: snippet(0xA2),
        retain: snippet(0xA3),
        release: snippet(0xA4),
        release_heapbase_offset: 2,
        alloc_revised: snippet(0xA5),
        alloc_revised_heapbase_offset: 3,
        exc_enter: snippet(0xA6),
        exc_pop: snippet(0xA7),
        exc_load: snippet(0xA8),
        exc_clear: snippet(0xA9),
        exc_throw: snippet(0xAA),
        exc_rethrow: snippet(0xAB),
        exc_base_offset: 4,
        exc_state_size: 40,
    }
}

/// A minimal program: one function returning 42.
fn minimal_program() -> Program {
    let f = IrFunction {
        name: "main".to_string(),
        receiver: ReceiverKind::Static,
        arity: 0,
        vregs: 1,
        blocks: vec![Block {
            instrs: vec![Instr::Const { dst: VReg(0), imm: 42 }],
            term: Terminator::Ret(Some(VReg(0))),
        }],
    };
    Program {
        functions: vec![f],
        statics: vec![],
        vtables: vec![],
        imports: vec![],
        exports: vec![],
        strings: vec![],
        heap_size: 0,
        names: vec![],
        entry: Some(0),
        init: None,
    }
}

#[test]
fn lower_target_succeeds_on_valid_ir() {
    let mc = lower_target(Ok(minimal_program()), &runtime()).unwrap();
    assert!(!mc.is_empty());
}

#[test]
fn lower_target_reports_a_failed_decode() {
    let result = lower_target(Err("bad tag".to_string()), &runtime());
    assert_eq!(result, Err("IR decode: bad tag".to_string()));
}

#[test]
fn write_image_target_fails_on_garbage_mc() {
    let result = write_image_target(&[0xFF, 0xFF], &FORMAT, false);
    assert!(result.is_err());
}

#[test]
fn write_shared_target_succeeds_on_valid_mc() {
    let mc = lower_target(Ok(minimal_program()), &runtime()).unwrap();
    let image = write_shared_target(&mc, &FORMAT).unwrap();
    assert!(image.len() > 0x1000);
    assert_eq!(&image[..4], b"\x7fELF");
}

#[test]
fn write_shared_target_fails_on_garbage_mc() {
    let result = write_shared_target(&[0xFF, 0xFF], &FORMAT);
    assert!(result.is_err());
}

#[test]
fn full_pipeline_ir_to_shared() {
    let mc = lower_target(Ok(minimal_program()), &runtime()).unwrap();
    let image = write_shared_target(&mc, &FORMAT).unwrap();
    assert_eq!(&image[..4], b"\x7fELF");
    assert!(image.len() > 0x1000);
}

#[test]
fn mc_roundtrip_encode_decode() {
    let mc_bytes = lower_target(Ok(minimal_program()), &runtime()).unwrap();
    let decoded = decode(&mc_bytes).unwrap();
    let re_encoded = encode(&decoded);
    assert_eq!(re_encoded, mc_bytes);
}

#[test]
fn full_pipeline_ir_to_image() {
    let mc = lower_target(Ok(minimal_program()), &runtime()).unwrap();
    let image = write_image_target(&mc, &FORMAT, true).unwrap();
    assert_eq!(&image[..4], b"\x7fELF");
    let code = decode(&mc).unwrap().code;
    let at = 232 + FORMAT.preamble_len;
    assert_eq!(&image[at..at + code.len()], &code[..]);
    assert_eq!(try_write_image_target(&mc, &FORMAT, true), Ok(Some(image)));
}

#[test]
fn unwritable_machine_code_is_told_apart() {
    let mut mc = decode(&lower_target(Ok(minimal_program()), &runtime()).unwrap()).unwrap();
    mc.relocs = vec![Reloc { kind: RelocKind::Abs64, section: Section::Code, site: 1 << 40, sym: Sym::HeapBase }];
    let bytes = encode(&mc);
    assert_eq!(try_write_image_target(&bytes, &FORMAT, false), Ok(None));
    assert_eq!(try_write_shared_target(&bytes, &FORMAT), Ok(None));
    let garbage: Result<Option<Vec<u8>>, String> = Err("machine code: bad magic".to_string());
    assert_eq!(try_write_image_target(&[0xFF, 0xFF], &FORMAT, false), garbage);
    assert_eq!(try_write_shared_target(&[0xFF, 0xFF], &FORMAT), garbage);
}

/// A program with data, helpers and calls.
fn larger_program() -> Program {
    let mut p = minimal_program();
    p.functions[0].vregs = 2;
    p.functions[0].blocks[0].instrs = vec![
        Instr::VTableAddr { dst: VReg(0), row: 0 },
        Instr::WriteStr { off: 0, len: 2 },
        Instr::Alloc { dst: VReg(1), bytes: 16 },
        Instr::CallFn { dst: VReg(1), fidx: 0, args: vec![VReg(0)] },
    ];
    p.strings = b"hi".to_vec();
    p.vtables = vec![("A".to_string(), vec![0])];
    p.exports = vec![("run".to_string(), 0, 0)];
    p.heap_size = 4096;
    p
}

#[test]
fn lowered_programs_can_be_written() {
    let mc = lower_target(Ok(larger_program()), &runtime()).unwrap();
    assert!(matches!(try_write_image_target(&mc, &FORMAT, true), Ok(Some(_))));
    assert!(matches!(try_write_image_target(&mc, &FORMAT, false), Ok(Some(_))));
    assert!(matches!(try_write_shared_target(&mc, &FORMAT), Ok(Some(_))));
    assert_eq!(encode(&decode(&mc).unwrap()), mc);
}

#[test]
fn shared_objects_load_into_the_same_register() {
    let bytes = lower_target(Ok(larger_program()), &runtime()).unwrap();
    let mc = decode(&bytes).unwrap();
    let image = write_shared_target(&bytes, &FORMAT).unwrap();
    let row = mc.relocs.iter().find(|r| matches!(r.sym, Sym::VtableOff(_))).unwrap();
    // movabs rcx becomes mov rcx, [rip + d].
    assert_eq!(&mc.code[row.site - 2..row.site], &[0x48, 0xB9]);
    let at = 360 + row.site;
    assert_eq!(&image[at - 2..at + 1], &[0x48, 0x8B, 0x0D]);
}

#[test]
fn executables_find_the_argument_slot() {
    let mut p = minimal_program();
    p.functions[0].blocks[0].instrs = vec![Instr::BuildArgv { dst: VReg(0) }];
    p.strings = b"0123456789".to_vec();
    let bytes = lower_target(Ok(p), &runtime()).unwrap();
    let mc = decode(&bytes).unwrap();
    let slot = mc.helper_argv.unwrap() as u64;
    assert_eq!(slot, 10);
    let image = write_image_target(&bytes, &FORMAT, false).unwrap();
    let site = mc.relocs.iter().find(|r| r.sym == Sym::ArgvRsp).unwrap().site;
    let mut word = [0u8; 8];
    word.copy_from_slice(&image[232 + site..232 + site + 8]);
    assert_eq!(u64::from_le_bytes(word), 0x401000 + slot);
}

#[test]
fn executables_find_the_argument_slot_beside_exceptions() {
    let mut p = minimal_program();
    p.functions[0].blocks[0].instrs = vec![Instr::BuildArgv { dst: VReg(0) }, Instr::HandlerPop];
    p.strings = b"0123456789".to_vec();
    let bytes = lower_target(Ok(p), &runtime()).unwrap();
    let mc = decode(&bytes).unwrap();
    assert_eq!(mc.exc_state_offset, Some(10));
    assert_eq!(mc.helper_argv, Some(50));
    let image = write_image_target(&bytes, &FORMAT, false).unwrap();
    let word = |site: usize| {
        let mut w = [0u8; 8];
        w.copy_from_slice(&image[232 + site..232 + site + 8]);
        u64::from_le_bytes(w)
    };
    let argv = mc.relocs.iter().find(|r| r.sym == Sym::ArgvRsp).unwrap().site;
    assert_eq!(word(argv), 0x401000 + 50);
    let state = mc.relocs.iter().find(|r| r.sym == Sym::ExcState(10)).unwrap().site;
    assert_eq!(word(state), 0x401000 + 10);
}

#[test]
fn shared_objects_load_strings_into_rsi() {
    let mut p = minimal_program();
    p.functions[0].blocks[0].instrs = vec![Instr::LoadStrAddr { dst: VReg(0), off: 1 }];
    p.strings = b"hi".to_vec();
    let bytes = lower_target(Ok(p), &runtime()).unwrap();
    let mc = decode(&bytes).unwrap();
    let site = mc.relocs[0].site;
    assert_eq!(&mc.code[site - 2..site], &[0x48, 0xBE]);
    let image = write_shared_target(&bytes, &FORMAT).unwrap();
    let at = 360 + site;
    // mov rsi, [rip + d]; three nops; mov rbx, rsi
    assert_eq!(&image[at - 2..at + 1], &[0x48, 0x8B, 0x35]);
    assert_eq!(&image[at + 5..at + 11], &[0x90, 0x90, 0x90, 0x48, 0x89, 0xF3]);
}
