//! Tests for the x86-64 instruction encoder via the IR pipeline.

use linux_x86_64::ir::{
    BinOp, Block, CmpOp, FBinOp, FCmpOp, Instr, IrFunction, Program, ReceiverKind, StaticField,
    Terminator, VReg,
};
use linux_x86_64::target::{MachineCode, Reloc, RelocKind, Section, Sym};
use linux_x86_64::x86::runtime::Runtime;
use linux_x86_64::x86::BACKEND;

/// Snippets that are told apart by their first byte, each with room for an
/// address.
fn runtime() -> Runtime {
    let snippet = |mark: u8| {
        let mut v = vec![mark];
        v.extend_from_slice(&[0x90; 10]);
        v.push(0xC3);
        v
    };
    Runtime {
        itoa: snippet(0xA0),
        itoa_err: snippet(0xA1),
        scan_int: snippet(0xA2),
        retain: snippet(0xA3),
        release: snippet(0xA4),
        release_heapbase_offset: 2,
        alloc_revised: snippet(0xA5),
        alloc_revised_heapbase_offset: 3,
        exc_enter: snippet(0xA6),
        exc_pop: snippet(0xA7),
        exc_load: snippet(0xA8),
        exc_clear: snippet(0xA9),
        exc_throw: snippet(0xAA),
        exc_rethrow: snippet(0xAB),
        exc_base_offset: 4,
        exc_state_size: 40,
    }
}

fn function(name: &str, receiver: ReceiverKind, arity: usize) -> IrFunction {
    let own = match receiver {
        ReceiverKind::Static => 0,
        ReceiverKind::This => 1,
    };
    IrFunction {
        name: name.to_string(),
        receiver,
        arity,
        vregs: arity as u32 + own,
        blocks: vec![Block { instrs: vec![], term: Terminator::Ret(None) }],
    }
}

fn fresh_vreg(f: &mut IrFunction) -> VReg {
    f.vregs += 1;
    VReg(f.vregs - 1)
}

fn push(f: &mut IrFunction, i: Instr) {
    f.blocks[0].instrs.push(i);
}

fn run_ir(program: Program) -> MachineCode {
    assert!(BACKEND.can_lower(&program, &runtime()));
    BACKEND.lower(&program, &runtime()).unwrap()
}

fn make_program(f: IrFunction) -> Program {
    Program {
        functions: vec![f],
        statics: vec![],
        vtables: vec![],
        imports: vec![],
        exports: vec![],
        strings: vec![],
        heap_size: 0,
        names: vec![],
        entry: Some(0),
        init: None,
    }
}

fn has_seq(code: &[u8], seq: &[u8]) -> bool {
    code.windows(seq.len()).any(|w| w == seq)
}

fn contains_any_movabs(code: &[u8], imm: u64) -> bool {
    let bytes = imm.to_le_bytes();
    (0..8).any(|id| {
        let mut seq = vec![0x48, 0xB8 | id];
        seq.extend_from_slice(&bytes);
        has_seq(code, &seq)
    })
}

#[test]
fn enc_consts() {
    let mut f = function("main", ReceiverKind::Static, 0);
    let a = fresh_vreg(&mut f);
    let b = fresh_vreg(&mut f);
    push(&mut f, Instr::Const { dst: a, imm: 1 });
    push(&mut f, Instr::Const { dst: b, imm: -42 });
    f.blocks[0].term = Terminator::Ret(Some(a));
    let mc = run_ir(make_program(f));
    assert!(!mc.code.is_empty());
}

#[test]
fn enc_mov() {
    let mut f = function("main", ReceiverKind::Static, 0);
    let a = fresh_vreg(&mut f);
    let b = fresh_vreg(&mut f);
    push(&mut f, Instr::Const { dst: a, imm: 7 });
    push(&mut f, Instr::Mov { dst: b, a });
    f.blocks[0].term = Terminator::Ret(Some(b));
    let mc = run_ir(make_program(f));
    assert!(!mc.code.is_empty());
}

#[test]
fn enc_bin_add() {
    let mut f = function("main", ReceiverKind::Static, 0);
    let a = fresh_vreg(&mut f);
    let b = fresh_vreg(&mut f);
    let c = fresh_vreg(&mut f);
    push(&mut f, Instr::Const { dst: a, imm: 3 });
    push(&mut f, Instr::Const { dst: b, imm: 4 });
    push(&mut f, Instr::Bin { dst: c, op: BinOp::Add, a, b });
    f.blocks[0].term = Terminator::Ret(Some(c));
    let mc = run_ir(make_program(f));
    assert!(!mc.code.is_empty());
}

#[test]
fn enc_bin_sub_mul_div_rem() {
    let mut f = function("main", ReceiverKind::Static, 0);
    let a = fresh_vreg(&mut f);
    let b = fresh_vreg(&mut f);
    let c = fresh_vreg(&mut f);
    let d = fresh_vreg(&mut f);
    let e = fresh_vreg(&mut f);
    let g = fresh_vreg(&mut f);
    push(&mut f, Instr::Const { dst: a, imm: 10 });
    push(&mut f, Instr::Const { dst: b, imm: 3 });
    push(&mut f, Instr::Bin { dst: c, op: BinOp::Sub, a, b });
    push(&mut f, Instr::Bin { dst: d, op: BinOp::Mul, a, b });
    push(&mut f, Instr::Bin { dst: e, op: BinOp::Div, a, b });
    push(&mut f, Instr::Bin { dst: g, op: BinOp::Rem, a, b });
    f.blocks[0].term = Terminator::Ret(Some(g));
    let mc = run_ir(make_program(f));
    assert!(!mc.code.is_empty());
}

#[test]
fn enc_neg() {
    let mut f = function("main", ReceiverKind::Static, 0);
    let a = fresh_vreg(&mut f);
    let b = fresh_vreg(&mut f);
    push(&mut f, Instr::Const { dst: a, imm: 5 });
    push(&mut f, Instr::Neg { dst: b, a });
    f.blocks[0].term = Terminator::Ret(Some(b));
    let mc = run_ir(make_program(f));
    assert!(!mc.code.is_empty());
}

#[test]
fn enc_cmp_all_ops() {
    let mut f = function("main", ReceiverKind::Static, 0);
    let a = fresh_vreg(&mut f);
    let b = fresh_vreg(&mut f);
    let r1 = fresh_vreg(&mut f);
    let r2 = fresh_vreg(&mut f);
    let r3 = fresh_vreg(&mut f);
    let r4 = fresh_vreg(&mut f);
    let r5 = fresh_vreg(&mut f);
    let r6 = fresh_vreg(&mut f);
    push(&mut f, Instr::Const { dst: a, imm: 5 });
    push(&mut f, Instr::Const { dst: b, imm: 3 });
    push(&mut f, Instr::Cmp { dst: r1, op: CmpOp::Eq, a, b });
    push(&mut f, Instr::Cmp { dst: r2, op: CmpOp::Ne, a, b });
    push(&mut f, Instr::Cmp { dst: r3, op: CmpOp::Lt, a, b });
    push(&mut f, Instr::Cmp { dst: r4, op: CmpOp::Gt, a, b });
    push(&mut f, Instr::Cmp { dst: r5, op: CmpOp::Le, a, b });
    push(&mut f, Instr::Cmp { dst: r6, op: CmpOp::Ge, a, b });
    f.blocks[0].term = Terminator::Ret(Some(r6));
    let mc = run_ir(make_program(f));
    assert!(!mc.code.is_empty());
}

#[test]
fn enc_branch_conditional() {
    let mut f = function("main", ReceiverKind::Static, 0);
    let a = fresh_vreg(&mut f);
    let b = fresh_vreg(&mut f);
    let cond = fresh_vreg(&mut f);
    push(&mut f, Instr::Const { dst: a, imm: 1 });
    push(&mut f, Instr::Const { dst: b, imm: 2 });
    push(&mut f, Instr::Cmp { dst: cond, op: CmpOp::Lt, a, b });
    f.blocks[0].term = Terminator::Branch { cond: Some(cond), if_true: 1, if_false: 2 };
    f.blocks.push(Block { instrs: vec![], term: Terminator::Ret(None) });
    f.blocks.push(Block { instrs: vec![], term: Terminator::Ret(None) });
    let r1 = fresh_vreg(&mut f);
    let r2 = fresh_vreg(&mut f);
    f.blocks[1].instrs.push(Instr::Const { dst: r1, imm: 100 });
    f.blocks[1].term = Terminator::Ret(Some(r1));
    f.blocks[2].instrs.push(Instr::Const { dst: r2, imm: 200 });
    f.blocks[2].term = Terminator::Ret(Some(r2));
    let mc = run_ir(make_program(f));
    assert!(!mc.code.is_empty());
}

#[test]
fn enc_call_fn() {
    let mut f1 = function("helper", ReceiverKind::Static, 0);
    let a1 = fresh_vreg(&mut f1);
    push(&mut f1, Instr::Const { dst: a1, imm: 42 });
    f1.blocks[0].term = Terminator::Ret(Some(a1));

    let mut f2 = function("main", ReceiverKind::Static, 0);
    let a2 = fresh_vreg(&mut f2);
    push(&mut f2, Instr::Const { dst: a2, imm: 0 });
    push(&mut f2, Instr::CallFn { dst: a2, fidx: 0, args: vec![] });
    f2.blocks[0].term = Terminator::Ret(Some(a2));

    let p = Program {
        functions: vec![f1, f2],
        statics: vec![],
        vtables: vec![],
        imports: vec![],
        exports: vec![],
        strings: vec![],
        heap_size: 0,
        names: vec![],
        entry: Some(1),
        init: None,
    };
    let mc = run_ir(p);
    assert!(!mc.code.is_empty());
}

#[test]
fn enc_call_import() {
    let mut f = function("main", ReceiverKind::Static, 0);
    let a = fresh_vreg(&mut f);
    push(&mut f, Instr::Const { dst: a, imm: 0 });
    push(&mut f, Instr::CallImport { dst: a, import: 0, args: vec![] });
    f.blocks[0].term = Terminator::Ret(Some(a));
    let p = Program {
        functions: vec![f],
        statics: vec![],
        vtables: vec![],
        imports: vec![("libc".into(), "exit".into())],
        exports: vec![],
        strings: vec![],
        heap_size: 0,
        names: vec![],
        entry: Some(0),
        init: None,
    };
    let mc = run_ir(p);
    assert!(!mc.code.is_empty());
}

#[test]
fn enc_alloc() {
    let mut f = function("main", ReceiverKind::Static, 0);
    let a = fresh_vreg(&mut f);
    push(&mut f, Instr::Alloc { dst: a, bytes: 8 });
    f.blocks[0].term = Terminator::Ret(Some(a));
    let p = Program {
        functions: vec![f],
        statics: vec![],
        vtables: vec![],
        imports: vec![],
        exports: vec![],
        strings: vec![],
        heap_size: 16,
        names: vec![],
        entry: Some(0),
        init: None,
    };
    let mc = run_ir(p);
    assert!(!mc.code.is_empty());
}

#[test]
fn enc_load_store_field() {
    let mut f = function("main", ReceiverKind::Static, 0);
    let base = fresh_vreg(&mut f);
    let val = fresh_vreg(&mut f);
    let loaded = fresh_vreg(&mut f);
    push(&mut f, Instr::Alloc { dst: base, bytes: 16 });
    push(&mut f, Instr::Const { dst: val, imm: 99 });
    push(&mut f, Instr::StoreField { base, off: 0, src: val });
    push(&mut f, Instr::LoadField { dst: loaded, base, off: 0 });
    f.blocks[0].term = Terminator::Ret(Some(loaded));
    let p = Program {
        functions: vec![f],
        statics: vec![],
        vtables: vec![],
        imports: vec![],
        exports: vec![],
        strings: vec![],
        heap_size: 32,
        names: vec![],
        entry: Some(0),
        init: None,
    };
    let mc = run_ir(p);
    assert!(!mc.code.is_empty());
}

#[test]
fn enc_vtable_addr() {
    let mut f1 = function("method_a", ReceiverKind::This, 0);
    let a1 = fresh_vreg(&mut f1);
    push(&mut f1, Instr::Const { dst: a1, imm: 1 });
    f1.blocks[0].term = Terminator::Ret(Some(a1));

    let mut f2 = function("method_b", ReceiverKind::This, 0);
    let a2 = fresh_vreg(&mut f2);
    push(&mut f2, Instr::Const { dst: a2, imm: 2 });
    f2.blocks[0].term = Terminator::Ret(Some(a2));

    let mut f3 = function("main", ReceiverKind::Static, 0);
    let vt = fresh_vreg(&mut f3);
    push(&mut f3, Instr::VTableAddr { dst: vt, row: 0 });
    f3.blocks[0].term = Terminator::Ret(Some(vt));

    let p = Program {
        functions: vec![f1, f2, f3],
        statics: vec![],
        vtables: vec![("ClassA".into(), vec![0, 1])],
        imports: vec![],
        exports: vec![],
        strings: vec![],
        heap_size: 0,
        names: vec![],
        entry: Some(2),
        init: None,
    };
    let mc = run_ir(p);
    assert!(!mc.code.is_empty());
    assert!(!mc.data.is_empty());
}

#[test]
fn enc_call_virt() {
    let mut f1 = function("method_a", ReceiverKind::This, 0);
    let a1 = fresh_vreg(&mut f1);
    push(&mut f1, Instr::Const { dst: a1, imm: 1 });
    f1.blocks[0].term = Terminator::Ret(Some(a1));

    let mut f2 = function("main", ReceiverKind::Static, 0);
    let recv = fresh_vreg(&mut f2);
    let vt = fresh_vreg(&mut f2);
    let ret = fresh_vreg(&mut f2);
    push(&mut f2, Instr::Alloc { dst: recv, bytes: 16 });
    push(&mut f2, Instr::VTableAddr { dst: vt, row: 0 });
    push(&mut f2, Instr::StoreField { base: recv, off: 0, src: vt });
    push(&mut f2, Instr::LoadField { dst: vt, base: recv, off: 0 });
    push(&mut f2, Instr::CallVirt { dst: ret, slot: 0, recv: vt, args: vec![] });
    f2.blocks[0].term = Terminator::Ret(Some(ret));

    let p = Program {
        functions: vec![f1, f2],
        statics: vec![],
        vtables: vec![("ClassA".into(), vec![0])],
        imports: vec![],
        exports: vec![],
        strings: vec![],
        heap_size: 32,
        names: vec![],
        entry: Some(1),
        init: None,
    };
    let mc = run_ir(p);
    assert!(!mc.code.is_empty());
}

#[test]
fn enc_write_str() {
    let mut f = function("main", ReceiverKind::Static, 0);
    push(&mut f, Instr::WriteStr { off: 0, len: 5 });
    f.blocks[0].term = Terminator::Exit;
    let p = Program {
        functions: vec![f],
        statics: vec![],
        vtables: vec![],
        imports: vec![],
        exports: vec![],
        strings: b"hello\0".to_vec(),
        heap_size: 0,
        names: vec![],
        entry: Some(0),
        init: None,
    };
    let mc = run_ir(p);
    assert!(!mc.code.is_empty());
    assert!(!mc.data.is_empty());
}

#[test]
fn enc_write_int() {
    let mut f = function("main", ReceiverKind::Static, 0);
    let a = fresh_vreg(&mut f);
    push(&mut f, Instr::Const { dst: a, imm: 42 });
    push(&mut f, Instr::WriteInt { src: a });
    f.blocks[0].term = Terminator::Exit;
    let mc = run_ir(make_program(f));
    assert!(!mc.code.is_empty());
}

#[test]
fn enc_scan_int() {
    let mut f = function("main", ReceiverKind::Static, 0);
    let a = fresh_vreg(&mut f);
    push(&mut f, Instr::ScanInt { dst: a });
    f.blocks[0].term = Terminator::Ret(Some(a));
    let mc = run_ir(make_program(f));
    assert!(!mc.code.is_empty());
}

#[test]
fn enc_released() {
    let mut f = function("main", ReceiverKind::Static, 0);
    let a = fresh_vreg(&mut f);
    push(&mut f, Instr::Alloc { dst: a, bytes: 8 });
    push(&mut f, Instr::Release { src: a, bytes: 8 });
    f.blocks[0].term = Terminator::Exit;
    let p = Program {
        functions: vec![f],
        statics: vec![],
        vtables: vec![],
        imports: vec![],
        exports: vec![],
        strings: vec![],
        heap_size: 16,
        names: vec![],
        entry: Some(0),
        init: None,
    };
    let mc = run_ir(p);
    assert!(!mc.code.is_empty());
}

#[test]
fn enc_retain() {
    let mut f = function("main", ReceiverKind::Static, 0);
    let a = fresh_vreg(&mut f);
    push(&mut f, Instr::Alloc { dst: a, bytes: 8 });
    push(&mut f, Instr::Retain { src: a });
    push(&mut f, Instr::Release { src: a, bytes: 8 });
    f.blocks[0].term = Terminator::Exit;
    let p = Program {
        functions: vec![f],
        statics: vec![],
        vtables: vec![],
        imports: vec![],
        exports: vec![],
        strings: vec![],
        heap_size: 16,
        names: vec![],
        entry: Some(0),
        init: None,
    };
    let mc = run_ir(p);
    assert!(!mc.code.is_empty());
}

#[test]
fn enc_raw_bytes() {
    let mut f = function("main", ReceiverKind::Static, 0);
    push(&mut f, Instr::Raw(vec![0x90]));
    let a = fresh_vreg(&mut f);
    push(&mut f, Instr::Const { dst: a, imm: 0 });
    f.blocks[0].term = Terminator::Ret(Some(a));
    let mc = run_ir(make_program(f));
    assert!(!mc.code.is_empty());
}

#[test]
fn enc_exit_terminator() {
    let mut f = function("main", ReceiverKind::Static, 0);
    f.blocks[0].term = Terminator::Exit;
    let mc = run_ir(make_program(f));
    assert!(!mc.code.is_empty());
}

#[test]
fn enc_exit_with() {
    let mut f = function("main", ReceiverKind::Static, 0);
    let a = fresh_vreg(&mut f);
    push(&mut f, Instr::Const { dst: a, imm: 7 });
    f.blocks[0].term = Terminator::ExitWith(a);
    let mc = run_ir(make_program(f));
    assert!(!mc.code.is_empty());
}

#[test]
fn enc_many_vregs() {
    let mut f = function("main", ReceiverKind::Static, 0);
    let mut vregs = Vec::new();
    for i in 0..16 {
        let v = fresh_vreg(&mut f);
        push(&mut f, Instr::Const { dst: v, imm: i as i64 });
        vregs.push(v);
    }
    push(&mut f, Instr::Bin { dst: vregs[0], op: BinOp::Add, a: vregs[0], b: vregs[1] });
    push(&mut f, Instr::Bin { dst: vregs[0], op: BinOp::Add, a: vregs[0], b: vregs[2] });
    push(&mut f, Instr::Bin { dst: vregs[0], op: BinOp::Mul, a: vregs[0], b: vregs[3] });
    f.blocks[0].term = Terminator::Ret(Some(vregs[0]));
    let mc = run_ir(make_program(f));
    assert!(!mc.code.is_empty());
}

#[test]
fn enc_fconst() {
    let mut f = function("main", ReceiverKind::Static, 0);
    let a = fresh_vreg(&mut f);
    push(&mut f, Instr::FConst { dst: a, bits: 1.5f64.to_bits() });
    f.blocks[0].term = Terminator::Ret(Some(a));
    let mc = run_ir(make_program(f));
    assert!(contains_any_movabs(&mc.code, 1.5f64.to_bits()));
}

#[test]
fn enc_fbin() {
    let mut f = function("main", ReceiverKind::Static, 0);
    let a = fresh_vreg(&mut f);
    let b = fresh_vreg(&mut f);
    let r1 = fresh_vreg(&mut f);
    let r2 = fresh_vreg(&mut f);
    let r3 = fresh_vreg(&mut f);
    let r4 = fresh_vreg(&mut f);
    push(&mut f, Instr::FConst { dst: a, bits: 1.5f64.to_bits() });
    push(&mut f, Instr::FConst { dst: b, bits: 2.25f64.to_bits() });
    push(&mut f, Instr::FBin { dst: r1, op: FBinOp::Add, a, b });
    push(&mut f, Instr::FBin { dst: r2, op: FBinOp::Sub, a, b });
    push(&mut f, Instr::FBin { dst: r3, op: FBinOp::Mul, a, b });
    push(&mut f, Instr::FBin { dst: r4, op: FBinOp::Div, a, b });
    f.blocks[0].term = Terminator::Ret(Some(r4));
    let mc = run_ir(make_program(f));
    assert!(has_seq(&mc.code, &[0x66, 0x48, 0x0F, 0x58, 0xC1]));
    assert!(has_seq(&mc.code, &[0x66, 0x48, 0x0F, 0x5C, 0xC1]));
    assert!(has_seq(&mc.code, &[0x66, 0x48, 0x0F, 0x59, 0xC1]));
    assert!(has_seq(&mc.code, &[0x66, 0x48, 0x0F, 0x5E, 0xC1]));
}

#[test]
fn enc_fcmp() {
    let mut f = function("main", ReceiverKind::Static, 0);
    let a = fresh_vreg(&mut f);
    let b = fresh_vreg(&mut f);
    let r1 = fresh_vreg(&mut f);
    let r2 = fresh_vreg(&mut f);
    let r3 = fresh_vreg(&mut f);
    let r4 = fresh_vreg(&mut f);
    let r5 = fresh_vreg(&mut f);
    let r6 = fresh_vreg(&mut f);
    push(&mut f, Instr::FConst { dst: a, bits: 1.5f64.to_bits() });
    push(&mut f, Instr::FConst { dst: b, bits: 2.25f64.to_bits() });
    push(&mut f, Instr::FCmp { dst: r1, op: FCmpOp::Eq, a, b });
    push(&mut f, Instr::FCmp { dst: r2, op: FCmpOp::Ne, a, b });
    push(&mut f, Instr::FCmp { dst: r3, op: FCmpOp::Lt, a, b });
    push(&mut f, Instr::FCmp { dst: r4, op: FCmpOp::Gt, a, b });
    push(&mut f, Instr::FCmp { dst: r5, op: FCmpOp::Le, a, b });
    push(&mut f, Instr::FCmp { dst: r6, op: FCmpOp::Ge, a, b });
    f.blocks[0].term = Terminator::Ret(Some(r6));
    let mc = run_ir(make_program(f));
    assert!(has_seq(&mc.code, &[0x66, 0x48, 0x0F, 0x2F, 0xC1]));
    assert!(has_seq(&mc.code, &[0x0F, 0x94, 0xC0]));
    assert!(has_seq(&mc.code, &[0x0F, 0x95, 0xC0]));
    assert!(has_seq(&mc.code, &[0x0F, 0x92, 0xC0]));
    assert!(has_seq(&mc.code, &[0x0F, 0x97, 0xC0]));
    assert!(has_seq(&mc.code, &[0x0F, 0x96, 0xC0]));
    assert!(has_seq(&mc.code, &[0x0F, 0x93, 0xC0]));
}

#[test]
fn enc_fneg() {
    let mut f = function("main", ReceiverKind::Static, 0);
    let a = fresh_vreg(&mut f);
    let b = fresh_vreg(&mut f);
    push(&mut f, Instr::FConst { dst: a, bits: 1.5f64.to_bits() });
    push(&mut f, Instr::FNeg { dst: b, a });
    f.blocks[0].term = Terminator::Ret(Some(b));
    let mc = run_ir(make_program(f));
    assert!(has_seq(
        &mc.code,
        &[0x48, 0xB9, 0x00, 0x00, 0x00, 0x00, 0x00, 0x00, 0x00, 0x80, 0x48, 0x31, 0xC8]
    ));
}

#[test]
fn enc_build_argv_rex_bytes() {
    // Hand-written machine code lives or dies by REX bits: REX.R
    // extends the ModRM *reg* field, REX.B the *rm*/base field.
    // Two wrong bits once shipped (`4D 8B 08` reads [r8] instead of
    // [rax]; `48 8B 09` reads [rcx] instead of [r9]) and segfaulted
    // every argv program. Pin the correct encodings.
    let mut f = function("@start", ReceiverKind::Static, 0);
    let argv = fresh_vreg(&mut f);
    push(&mut f, Instr::BuildArgv { dst: argv });
    f.blocks[0].term = Terminator::Ret(Some(argv));
    let mc = run_ir(make_program(f));
    // mov r9, [rax]: REX.R set (r9 dest), REX.B clear ([rax] base).
    assert!(
        has_seq(&mc.code, &[0x4C, 0x8B, 0x08]),
        "mov r9,[rax] must use REX.WR, not WRB"
    );
    // mov rcx, [r9]: REX.B set (r9 base), REX.R clear (rcx dest).
    assert!(
        has_seq(&mc.code, &[0x49, 0x8B, 0x09]),
        "mov rcx,[r9] must use REX.WB, not W"
    );
    assert!(
        !has_seq(&mc.code, &[0x4D, 0x8B, 0x08]),
        "stale [r8]-reading encoding must be gone"
    );
    // mov [rdi],rcx needs mod=00 (memory); mod=11 (0xCF) would move
    // rcx into rdi, lose the array, and fault on the Length read.
    assert!(
        has_seq(&mc.code, &[0x48, 0x89, 0x0F]),
        "array length store must address [rdi]"
    );
    // REX rule (burned in by live segfaults): REX.R ⟺ ModRM.reg ≥ 8,
    // REX.X ⟺ SIB.index ≥ 8, REX.B ⟺ rm/base ≥ 8. rsi/rdi/rcx (6/7/1)
    // take no extension bits; r8/r9/r11 (8/9/11) take them.
    for good in [
        &[0x48, 0x8D, 0x34, 0xCD][..], // lea rsi,[rcx*8+8], REX.R clear
        &[0x4B, 0x8B, 0x74, 0xD9][..], // mov rsi,[r9+r11*8+8], R clear
        &[0x49, 0x89, 0xF0][..],       // mov r8,rsi, REX.R clear
        &[0x48, 0x8D, 0x72, 0x10][..], // lea rsi,[rdx+16], REX.R clear
        &[0x41, 0x8A, 0x34, 0x08][..], // mov sil,[r8+rcx]: sil, not al (al is rax's low byte and rax holds strobj live; a char load into al rewrites the pointer)
        &[0x48, 0x88, 0xB4, 0x08][..], // mov [rax+rcx+16],sil, REX.X clear
        &[0x4A, 0x89, 0x44, 0xDF][..], // mov [rdi+r11*8+8],rax, REX.B clear
        &[0x4C, 0x3B, 0x1F][..],       // cmp r11,[rdi], REX.B clear, CMP r64,r/m64
    ] {
        assert!(has_seq(&mc.code, good), "missing correct encoding {good:02x?}");
    }
    // Loop-branch opcode: 0x3B compares r11 AGAINST [rdi] (skip when
    // i >= length); 0x39 would compare backwards and skip the loop
    // whenever length > 0 (shipped that way once: empty argv arrays).
    assert!(
        has_seq(&mc.code, &[0x4C, 0x3B, 0x1F]),
        "loop condition must use CMP r64,r/m64"
    );
    assert!(
        !has_seq(&mc.code, &[0x4C, 0x39, 0x1F]),
        "inverted loop condition must be gone"
    );
    for bad in [
        &[0x4C, 0x8D, 0x34, 0xCD][..],
        &[0x4F, 0x8B, 0x74, 0xD9][..],
        &[0x4D, 0x89, 0xF0][..],
        &[0x4C, 0x8D, 0x72, 0x10][..],
        &[0x42, 0x88, 0x04, 0x08][..],
        &[0x4B, 0x89, 0x44, 0xDF][..],
        &[0x4D, 0x39, 0x3B][..],
        &[0x49, 0x89, 0xCF][..],
        &[0x48, 0x8B, 0x09][..],
        &[0x41, 0x8A, 0x04, 0x08][..], // old copy load into al (clobbers strobj low byte)
        &[0x48, 0x88, 0x84, 0x08][..], // old copy store from al
    ] {
        assert!(!has_seq(&mc.code, bad), "stale mis-encoded {bad:02x?} must be gone");
    }
}


#[test]
fn minimal_function_is_pinned() {
    let mut f = function("main", ReceiverKind::Static, 0);
    let v = fresh_vreg(&mut f);
    push(&mut f, Instr::Const { dst: v, imm: 42 });
    f.blocks[0].term = Terminator::Ret(Some(v));
    let mc = run_ir(make_program(f));
    assert_eq!(
        mc.code,
        vec![
            0x55, // push rbp
            0x48, 0x89, 0xE5, // mov rbp, rsp
            0x48, 0x53, // push rbx
            0x48, 0xC7, 0xC3, 0x2A, 0, 0, 0, // mov rbx, 42
            0x48, 0x89, 0xD8, // mov rax, rbx
            0x48, 0x5B, // pop rbx
            0xC9, 0xC3, // leave; ret
        ]
    );
    assert_eq!(mc.fn_bases, vec![0]);
    assert!(mc.relocs.is_empty());
    assert!(mc.data.is_empty());
}

#[test]
fn branches_land_on_their_blocks() {
    let mut f = function("main", ReceiverKind::Static, 0);
    f.blocks[0].term = Terminator::Branch { cond: None, if_true: 1, if_false: 1 };
    f.blocks.push(Block { instrs: vec![], term: Terminator::Branch { cond: None, if_true: 0, if_false: 0 } });
    let mc = run_ir(make_program(f));
    // push rbp; mov rbp, rsp; sub rsp, 8 takes eight bytes, each jump five.
    assert_eq!(&mc.code[..8], &[0x55, 0x48, 0x89, 0xE5, 0x48, 0x83, 0xEC, 0x08]);
    assert_eq!(&mc.code[8..13], &[0xE9, 0, 0, 0, 0]);
    assert_eq!(&mc.code[13..18], &[0xE9, 0xF6, 0xFF, 0xFF, 0xFF]);
}

#[test]
fn wide_constants_take_eight_bytes() {
    let mut f = function("main", ReceiverKind::Static, 0);
    let v = fresh_vreg(&mut f);
    push(&mut f, Instr::Const { dst: v, imm: 0x8000_0000 });
    push(&mut f, Instr::Const { dst: v, imm: -0x8000_0000 });
    let mc = run_ir(make_program(f));
    assert!(has_seq(&mc.code, &[0x48, 0xBB, 0, 0, 0, 0x80, 0, 0, 0, 0]));
    assert!(has_seq(&mc.code, &[0x48, 0xC7, 0xC3, 0, 0, 0, 0x80]));
}

#[test]
fn calls_become_relative_relocations() {
    let mut f = function("main", ReceiverKind::Static, 0);
    let v = fresh_vreg(&mut f);
    push(&mut f, Instr::CallFn { dst: v, fidx: 0, args: vec![] });
    let mc = run_ir(make_program(f));
    // The call opcode follows the six bytes of the prologue.
    assert_eq!(mc.code[6], 0xE8);
    assert_eq!(
        mc.relocs,
        vec![Reloc { kind: RelocKind::Rel32Call, section: Section::Code, site: 7, sym: Sym::Fn(0) }]
    );
}

#[test]
fn data_holds_strings_vtables_and_statics() {
    let f = function("main", ReceiverKind::Static, 0);
    let mut p = make_program(f);
    p.strings = b"abc".to_vec();
    p.vtables = vec![("A".to_string(), vec![0, usize::MAX]), ("B".to_string(), vec![0])];
    p.statics = vec![
        StaticField { class: "A".to_string(), name: "X".to_string() },
        StaticField { class: "B".to_string(), name: "Y".to_string() },
    ];
    let mc = run_ir(p);
    assert_eq!(mc.vtable_offsets, vec![3, 19]);
    assert_eq!(mc.vtable_names, vec!["A".to_string(), "B".to_string()]);
    assert_eq!(mc.static_offsets, vec![27, 35]);
    assert_eq!(mc.static_names, vec!["A::X".to_string(), "B::Y".to_string()]);
    assert_eq!(mc.data.len(), 43);
    assert_eq!(&mc.data[..3], b"abc");
    assert!(mc.data[3..].iter().all(|&b| b == 0));
    // An abstract slot gets no relocation.
    let sites: Vec<usize> = mc.relocs.iter().map(|r| r.site).collect();
    assert_eq!(sites, vec![3, 19]);
    assert!(mc.relocs.iter().all(|r| r.section == Section::Data && r.sym == Sym::Fn(0)));
}

#[test]
fn helpers_come_only_when_used() {
    let mut f = function("main", ReceiverKind::Static, 0);
    let v = fresh_vreg(&mut f);
    push(&mut f, Instr::Alloc { dst: v, bytes: 8 });
    push(&mut f, Instr::Release { src: v, bytes: 8 });
    let mc = run_ir(make_program(f));
    let release = mc.helper_release.unwrap();
    let alloc = mc.helper_alloc.unwrap();
    assert_eq!(mc.code[release], 0xA4);
    assert_eq!(mc.code[alloc], 0xA5);
    assert_eq!(alloc, release + 12);
    assert_eq!(mc.code.len(), alloc + 12);
    assert_eq!(mc.helper_itoa, None);
    assert_eq!(mc.helper_retain, None);
    let heap: Vec<usize> =
        mc.relocs.iter().filter(|r| r.sym == Sym::HeapBase).map(|r| r.site).collect();
    assert_eq!(heap, vec![alloc + 3, release + 2]);
}

#[test]
fn exceptions_bring_their_state_and_helpers() {
    let mut f = function("main", ReceiverKind::Static, 0);
    let v = fresh_vreg(&mut f);
    push(&mut f, Instr::HandlerEnter { dst: v });
    f.blocks[0].term = Terminator::Unwind { src: v };
    let mut p = make_program(f);
    p.strings = vec![1, 2];
    let mc = run_ir(p);
    assert_eq!(mc.exc_state_offset, Some(2));
    assert_eq!(mc.data.len(), 42);
    let enter = mc.helper_exc_enter.unwrap();
    assert_eq!(mc.code[enter], 0xA6);
    assert_eq!(mc.helper_exc_pop, Some(enter + 12));
    assert_eq!(mc.helper_exc_load, Some(enter + 24));
    assert_eq!(mc.helper_exc_clear, Some(enter + 36));
    assert_eq!(mc.helper_exc_throw, Some(enter + 48));
    assert_eq!(mc.helper_exc_rethrow, Some(enter + 60));
    let states: Vec<usize> =
        mc.relocs.iter().filter(|r| r.sym == Sym::ExcState(2)).map(|r| r.site).collect();
    assert_eq!(states, vec![enter + 4, enter + 16, enter + 28, enter + 40, enter + 52, enter + 64]);
}

#[test]
fn process_start_saves_the_stack_pointer() {
    let mut f = function("@start", ReceiverKind::Static, 0);
    let v = fresh_vreg(&mut f);
    push(&mut f, Instr::BuildArgv { dst: v });
    let mc = run_ir(make_program(f));
    assert_eq!(&mc.code[..2], &[0x48, 0xB8]);
    assert_eq!(&mc.code[10..13], &[0x48, 0x89, 0x20]);
    assert_eq!(mc.helper_argv, Some(0));
    assert_eq!(mc.data.len(), 8);
    assert_eq!(mc.relocs[0].sym, Sym::ArgvRsp);
    assert_eq!(mc.relocs[0].site, 2);
}

#[test]
fn static_calls_follow_the_callee() {
    let mut takes = function("takes", ReceiverKind::This, 0);
    takes.blocks[0].term = Terminator::Ret(None);
    let mut plain = function("plain", ReceiverKind::Static, 0);
    plain.blocks[0].term = Terminator::Ret(None);
    let mut f = function("main", ReceiverKind::Static, 0);
    let v = fresh_vreg(&mut f);
    push(&mut f, Instr::CallStatic { dst: v, fidx: 0, args: vec![] });
    push(&mut f, Instr::CallStatic { dst: v, fidx: 1, args: vec![] });
    let mut p = make_program(takes);
    p.functions.push(plain);
    p.functions.push(f);
    let mc = run_ir(p);
    let main = mc.fn_bases[2];
    // The receiver is null for the first, absent for the second.
    assert_eq!(&mc.code[main + 6..main + 9], &[0x31, 0xFF, 0xE8]);
    assert_eq!(&mc.code[main + 13..main + 17], &[0x48, 0x89, 0xC3, 0xE8]);
}

#[test]
fn exports_say_whether_they_take_a_receiver() {
    let mut p = make_program(function("a", ReceiverKind::This, 0));
    p.functions.push(function("b", ReceiverKind::Static, 0));
    p.exports = vec![
        ("a".to_string(), 0, 0),
        ("b".to_string(), 1, 0),
        ("missing".to_string(), 9, 0),
    ];
    p.init = Some(1);
    let mc = run_ir(p);
    assert_eq!(mc.export_takes_receiver, vec![true, false, false]);
    assert_eq!(mc.init_fn, Some(1));
    assert_eq!(mc.exports[2], ("missing".to_string(), 9, 0));
}

#[test]
fn spilled_values_live_in_the_frame() {
    let mut f = function("main", ReceiverKind::Static, 0);
    let mut vs = Vec::new();
    for k in 0..7 {
        let v = fresh_vreg(&mut f);
        push(&mut f, Instr::Const { dst: v, imm: k });
        vs.push(v);
    }
    for v in &vs {
        push(&mut f, Instr::WriteInt { src: *v });
    }
    let mc = run_ir(make_program(f));
    // Two slots and five saved registers: sixteen bytes of frame.
    assert_eq!(&mc.code[4..8], &[0x48, 0x83, 0xEC, 0x10]);
    assert!(has_seq(&mc.code, &[0x48, 0xC7, 0x45, 0xF8]));
    assert!(has_seq(&mc.code, &[0x48, 0xC7, 0x45, 0xF0]));
}

#[test]
fn what_has_no_code_cannot_be_lowered() {
    let unsupported = [
        Instr::Exit,
        Instr::Drop { src: VReg(0) },
        Instr::StackAlloc { dst: VReg(0), bytes: 8 },
        Instr::CallByName { dst: VReg(0), name: 0, recv: VReg(0), args: vec![] },
        Instr::Bin { dst: VReg(0), op: BinOp::Is, a: VReg(0), b: VReg(0) },
        // No vtable row to point at.
        Instr::VTableAddr { dst: VReg(0), row: 0 },
        // No such register.
        Instr::WriteInt { src: VReg(1) },
        Instr::CallVirt { dst: VReg(0), slot: 0x2000_0000, recv: VReg(0), args: vec![] },
    ];
    for i in unsupported {
        let mut f = function("main", ReceiverKind::Static, 0);
        fresh_vreg(&mut f);
        push(&mut f, i);
        assert!(!BACKEND.can_lower(&make_program(f), &runtime()));
    }
    let mut f = function("main", ReceiverKind::Static, 0);
    f.blocks[0].term = Terminator::Branch { cond: None, if_true: 1, if_false: 0 };
    assert!(!BACKEND.can_lower(&make_program(f), &runtime()));
    let mut rt = runtime();
    rt.exc_base_offset = 5;
    assert!(!BACKEND.can_lower(&make_program(function("main", ReceiverKind::Static, 0)), &rt));
}

#[test]
fn objects_round_trip_through_the_backend() {
    let mut f = function("main", ReceiverKind::Static, 0);
    let v = fresh_vreg(&mut f);
    push(&mut f, Instr::Const { dst: v, imm: 1 });
    let mc = run_ir(make_program(f));
    let bytes = BACKEND.encode_object(&mc).unwrap();
    let back = BACKEND.decode_object(&bytes).unwrap();
    assert_eq!(back.code, mc.code);
    assert_eq!(format!("{:?}", BACKEND.decode_object(&[0; 8]).unwrap_err()), "BadObject(\"machine code: bad magic\")");
}

fn busy_program() -> Program {
    let mut f = function("main", ReceiverKind::Static, 0);
    let a = fresh_vreg(&mut f);
    let b = fresh_vreg(&mut f);
    push(&mut f, Instr::WriteStr { off: 0, len: 3 });
    push(&mut f, Instr::LoadStrAddr { dst: a, off: 1 });
    push(&mut f, Instr::VTableAddr { dst: b, row: 0 });
    push(&mut f, Instr::LoadStaticAddr { dst: b, idx: 0 });
    push(&mut f, Instr::CallImport { dst: a, import: 0, args: vec![b] });
    push(&mut f, Instr::Alloc { dst: a, bytes: 8 });
    push(&mut f, Instr::WriteInt { src: a });
    f.blocks[0].term = Terminator::Branch { cond: Some(a), if_true: 0, if_false: 1 };
    f.blocks.push(Block { instrs: vec![], term: Terminator::Ret(Some(b)) });
    let mut p = make_program(f);
    p.strings = b"abc".to_vec();
    p.vtables = vec![("A".to_string(), vec![0])];
    p.statics = vec![StaticField { class: "A".to_string(), name: "X".to_string() }];
    p.imports = vec![("libc".to_string(), "exit".to_string())];
    p
}

#[test]
fn open_sites_have_their_shapes() {
    let mc = run_ir(busy_program());
    let mut windows = Vec::new();
    for r in &mc.relocs {
        match (r.kind, r.section, r.sym) {
            (RelocKind::Rel32Call, _, _) => {
                assert_eq!(r.section, Section::Code);
                assert_eq!(mc.code[r.site - 1], 0xE8);
                assert_eq!(&mc.code[r.site..r.site + 4], &[0; 4]);
            }
            (_, Section::Code, Sym::HeapBase) => {}
            (_, Section::Code, sym) => {
                let reg = match sym {
                    Sym::String(_) => 6,
                    Sym::VtableOff(_) | Sym::Static(_) => 1,
                    _ => 0,
                };
                assert_eq!(&mc.code[r.site - 2..r.site], &[0x48, 0xB8 + reg]);
                assert_eq!(&mc.code[r.site..r.site + 8], &[0; 8]);
                windows.push(r.site);
            }
            (_, Section::Data, _) => assert_eq!(r.sym, Sym::Fn(0)),
        }
    }
    assert_eq!(windows.len(), 5);
    for pair in windows.windows(2) {
        assert!(pair[0] + 10 <= pair[1]);
    }
}

#[test]
fn relocations_stay_inside_their_blobs() {
    let mc = run_ir(busy_program());
    for r in &mc.relocs {
        let width = match r.kind {
            RelocKind::Abs64 => 8,
            RelocKind::Rel32Call => 4,
        };
        let len = match r.section {
            Section::Code => mc.code.len(),
            Section::Data => mc.data.len(),
        };
        assert!(r.site + width <= len);
    }
}

#[test]
fn frame_and_saved_registers_are_an_odd_number_of_words() {
    for n in 1..9i64 {
        let mut f = function("main", ReceiverKind::Static, 0);
        let mut vs = Vec::new();
        for k in 0..n {
            let v = fresh_vreg(&mut f);
            push(&mut f, Instr::Const { dst: v, imm: k });
            vs.push(v);
        }
        for v in &vs {
            push(&mut f, Instr::WriteInt { src: *v });
        }
        let mc = run_ir(make_program(f));
        let reserved = if mc.code[4..7] == [0x48, 0x83, 0xEC] { mc.code[7] as i64 } else { 0 };
        let saved = n.min(5);
        assert_eq!((reserved + 8 * saved) % 16, 8);
        assert!(reserved >= 8 * (n - saved));
    }
}

#[test]
fn string_addresses_travel_in_rsi() {
    let mut f = function("main", ReceiverKind::Static, 0);
    let v = fresh_vreg(&mut f);
    push(&mut f, Instr::LoadStrAddr { dst: v, off: 1 });
    f.blocks[0].term = Terminator::Ret(Some(v));
    let mut p = make_program(f);
    p.strings = b"abc".to_vec();
    let mc = run_ir(p);
    // movabs rsi, 0; mov rbx, rsi
    assert_eq!(
        &mc.code[6..19],
        &[0x48, 0xBE, 0, 0, 0, 0, 0, 0, 0, 0, 0x48, 0x89, 0xF3]
    );
    assert_eq!(
        mc.relocs,
        vec![Reloc { kind: RelocKind::Abs64, section: Section::Code, site: 8, sym: Sym::String(1) }]
    );
}

#[test]
fn unordered_comparisons_are_corrected_in_cl() {
    let compare = |op: FCmpOp| {
        let mut f = function("main", ReceiverKind::Static, 0);
        let a = fresh_vreg(&mut f);
        let r = fresh_vreg(&mut f);
        push(&mut f, Instr::FCmp { dst: r, op, a, b: a });
        f.blocks[0].term = Terminator::Ret(Some(r));
        run_ir(make_program(f)).code
    };
    // setnp cl; and al, cl
    let ordered = [0x0F, 0x9B, 0xC1, 0x20, 0xC8];
    // setp cl; or al, cl
    let unordered = [0x0F, 0x9A, 0xC1, 0x08, 0xC8];
    for op in [FCmpOp::Eq, FCmpOp::Lt, FCmpOp::Le] {
        assert!(has_seq(&compare(op), &ordered));
    }
    assert!(has_seq(&compare(FCmpOp::Ne), &unordered));
    for op in [FCmpOp::Gt, FCmpOp::Ge] {
        let code = compare(op);
        assert!(!has_seq(&code, &[0x0F, 0x9B]) && !has_seq(&code, &[0x0F, 0x9A]));
    }
}

#[test]
fn arguments_are_none_where_no_stack_was_kept() {
    let mut f = function("main", ReceiverKind::Static, 0);
    let argv = fresh_vreg(&mut f);
    push(&mut f, Instr::BuildArgv { dst: argv });
    let mc = run_ir(make_program(f));
    let guard = [
        0x31, 0xC9, // xor ecx, ecx
        0x4D, 0x85, 0xC9, // test r9, r9
        0x74, 0x12, // jz counted
        0x49, 0x8B, 0x09, // mov rcx, [r9]
        0x48, 0xC7, 0xC0, 0, 4, 0, 0, // mov rax, 1024
        0x48, 0x39, 0xC1, // cmp rcx, rax
        0x76, 0x03, // jbe counted
        0x48, 0x89, 0xC1, // mov rcx, rax
        0x48, 0x8D, 0x34, 0xCD, 8, 0, 0, 0, // counted: lea rsi, [rcx*8 + 8]
        0x51, 0xE8, 0, 0, 0, 0, 0x59, // push rcx; call the allocator; pop rcx
        0x48, 0x89, 0xC7, // mov rdi, rax
        0x48, 0x89, 0x0F, // mov [rdi], rcx
    ];
    assert!(has_seq(&mc.code, &guard));
}

#[test]
fn argument_slot_follows_the_exception_state() {
    let mut f = function("@start", ReceiverKind::Static, 0);
    let v = fresh_vreg(&mut f);
    push(&mut f, Instr::BuildArgv { dst: v });
    push(&mut f, Instr::HandlerPop);
    let mut p = make_program(f);
    p.strings = b"abc".to_vec();
    let mc = run_ir(p);
    assert_eq!(mc.exc_state_offset, Some(3));
    assert_eq!(mc.data.len(), 3 + 40 + 8);
    assert_eq!(mc.helper_argv, Some(mc.data.len() - 8));
}

#[test]
fn each_helper_comes_with_its_instruction() {
    let v = VReg(0);
    let present = |i: Instr| {
        let mut f = function("main", ReceiverKind::Static, 0);
        fresh_vreg(&mut f);
        push(&mut f, i);
        let mc = run_ir(make_program(f));
        let all = [
            mc.helper_itoa,
            mc.helper_itoa_err,
            mc.helper_scan_int,
            mc.helper_retain,
            mc.helper_release,
            mc.helper_alloc,
            mc.helper_exc_enter,
        ];
        let found: Vec<usize> = (0..all.len()).filter(|&k| all[k].is_some()).collect();
        found
    };
    assert_eq!(present(Instr::WriteInt { src: v }), vec![0]);
    assert_eq!(present(Instr::EWriteInt { src: v }), vec![1]);
    assert_eq!(present(Instr::ScanInt { dst: v }), vec![2]);
    assert_eq!(present(Instr::Retain { src: v }), vec![3]);
    assert_eq!(present(Instr::Release { src: v, bytes: 8 }), vec![4]);
    assert_eq!(present(Instr::Alloc { dst: v, bytes: 8 }), vec![5]);
    assert_eq!(present(Instr::AllocDyn { dst: v, bytes: v }), vec![5]);
    assert_eq!(present(Instr::TaskAlloc { dst: v, bytes: 8 }), vec![5]);
    assert_eq!(present(Instr::BuildArgv { dst: v }), vec![5]);
    assert_eq!(present(Instr::HandlerEnter { dst: v }), vec![6]);
    assert!(present(Instr::Neg { dst: v, a: v }).is_empty());
}
