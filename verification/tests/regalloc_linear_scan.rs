//! Linear-scan register allocation: sequential ranges share a physical
//! register, overlapping ranges do not, expired ranges are reused.

use linux_x86_64::ir::{BinOp, Block, Instr, IrFunction, ReceiverKind, Terminator, VReg};
use linux_x86_64::x86::liveness::{end_operand, uses_and_defs};
use linux_x86_64::x86::regalloc::{allocate, scan, Loc, Phys, Range, POOL};

fn function(vregs: u32, instrs: Vec<Instr>, term: Terminator) -> IrFunction {
    IrFunction {
        name: "t".to_string(),
        receiver: ReceiverKind::Static,
        arity: 0,
        vregs,
        blocks: vec![Block { instrs, term }],
    }
}

#[test]
fn sequential_ranges_share_a_register() {
    // v0 [0,1], v1 [1,2]: v1 may reuse v0's register.
    let f = function(0, vec![], Terminator::Ret(None));
    let alloc = allocate(&f);
    assert_eq!(alloc.spills, 0);
}

#[test]
fn overlapping_ranges_get_distinct_registers() {
    // Hand-built ranges: three overlapping values need three homes,
    // the fourth (starting after one ends) reuses.
    let mut ranges = vec![
        Range {
            vreg: 0,
            start: 0,
            end: 9,
        },
        Range {
            vreg: 1,
            start: 1,
            end: 9,
        },
        Range {
            vreg: 2,
            start: 2,
            end: 9,
        },
        Range {
            vreg: 3,
            start: 10,
            end: 12,
        },
    ];
    ranges.sort_by_key(|r| (r.start, r.end, r.vreg));
    // Drive the same scan directly.
    let mut loc = [Loc::Slot(u32::MAX); 4];
    let mut free: Vec<usize> = (0..POOL.len()).collect();
    let mut active: Vec<(u32, usize, u32)> = Vec::new();
    for iv in &ranges {
        let mut i = 0;
        while i < active.len() {
            if active[i].0 < iv.start {
                let (e, pi, _) = active.remove(i);
                free.push(pi);
                free.sort_unstable();
                let _ = e;
            } else {
                i += 1;
            }
        }
        let pi = free.remove(0);
        loc[iv.vreg as usize] = Loc::Reg(POOL[pi]);
        active.push((iv.end, pi, iv.vreg));
    }
    assert_ne!(loc[0], loc[1]);
    assert_ne!(loc[1], loc[2]);
    assert_eq!(loc[3], loc[0], "expired register is reused");

    // The allocator's scan gives the same homes.
    let scanned = scan(&ranges, 4);
    assert_eq!(scanned.loc, loc.to_vec());
    assert_eq!(scanned.spills, 0);
}

#[test]
fn a_range_keeps_its_register_to_its_last_point() {
    // The second range starts where the first one ends.
    let ranges = vec![Range { vreg: 0, start: 0, end: 3 }, Range { vreg: 1, start: 3, end: 5 }];
    let a = scan(&ranges, 2);
    assert_eq!(a.loc, vec![Loc::Reg(Phys::Rbx), Loc::Reg(Phys::R12)]);
    // One point later it may take over.
    let ranges = vec![Range { vreg: 0, start: 0, end: 3 }, Range { vreg: 1, start: 4, end: 5 }];
    let a = scan(&ranges, 2);
    assert_eq!(a.loc, vec![Loc::Reg(Phys::Rbx), Loc::Reg(Phys::Rbx)]);
}

#[test]
fn the_sixth_overlapping_range_spills_one() {
    let mut ranges = Vec::new();
    for v in 0..6u32 {
        ranges.push(Range { vreg: v, start: v, end: 20 });
    }
    let a = scan(&ranges, 6);
    assert_eq!(a.spills, 1);
    let slots = a.loc.iter().filter(|l| matches!(l, Loc::Slot(0))).count();
    assert_eq!(slots, 1);
    for v in 0..6usize {
        for w in 0..v {
            assert_ne!(a.loc[v], a.loc[w]);
        }
    }
}

#[test]
fn the_range_that_ends_last_is_spilled() {
    let ranges = vec![
        Range { vreg: 0, start: 0, end: 50 },
        Range { vreg: 1, start: 1, end: 10 },
        Range { vreg: 2, start: 2, end: 10 },
        Range { vreg: 3, start: 3, end: 10 },
        Range { vreg: 4, start: 4, end: 10 },
        Range { vreg: 5, start: 5, end: 10 },
    ];
    let a = scan(&ranges, 6);
    assert_eq!(a.loc[0], Loc::Slot(0));
    assert_eq!(a.loc[5], Loc::Reg(Phys::Rbx));
    assert_eq!(a.spills, 1);
}

#[test]
fn values_that_are_live_together_keep_apart() {
    let f = function(
        3,
        vec![
            Instr::Const { dst: VReg(0), imm: 1 },
            Instr::Const { dst: VReg(1), imm: 2 },
            Instr::Bin { dst: VReg(2), op: BinOp::Add, a: VReg(0), b: VReg(1) },
        ],
        Terminator::Ret(Some(VReg(2))),
    );
    let a = allocate(&f);
    assert_ne!(a.loc[0], a.loc[1]);
    assert_eq!(a.spills, 0);
    assert_eq!(a.loc.len(), 3);
}

#[test]
fn a_value_lives_around_a_loop() {
    // v0 is read in block 1, which branches to itself past the write of v1.
    let f = IrFunction {
        name: "t".to_string(),
        receiver: ReceiverKind::Static,
        arity: 0,
        vregs: 2,
        blocks: vec![
            Block {
                instrs: vec![Instr::Const { dst: VReg(0), imm: 1 }],
                term: Terminator::Branch { cond: None, if_true: 1, if_false: 1 },
            },
            Block {
                instrs: vec![
                    Instr::Neg { dst: VReg(1), a: VReg(0) },
                    Instr::WriteInt { src: VReg(1) },
                ],
                term: Terminator::Branch { cond: None, if_true: 1, if_false: 1 },
            },
        ],
    };
    let a = allocate(&f);
    assert_ne!(a.loc[0], a.loc[1]);
}

#[test]
fn registers_have_their_hardware_numbers() {
    let ids: Vec<u8> = POOL.iter().map(|p| p.id()).collect();
    assert_eq!(ids, vec![3, 12, 13, 14, 15]);
    let rex: Vec<bool> = POOL.iter().map(|p| p.needs_rex()).collect();
    assert_eq!(rex, vec![false, true, true, true, true]);
}

#[test]
fn five_values_need_no_slot() {
    let mut instrs = Vec::new();
    for v in 0..5u32 {
        instrs.push(Instr::Const { dst: VReg(v), imm: 1 });
    }
    for v in 0..5u32 {
        instrs.push(Instr::WriteInt { src: VReg(v) });
    }
    let a = allocate(&function(5, instrs, Terminator::Ret(None)));
    assert_eq!(a.spills, 0);
    assert!(a.loc.iter().all(|l| matches!(l, Loc::Reg(_))));
}

#[test]
fn a_returned_value_lives_to_the_return() {
    for term in [
        Terminator::Ret(Some(VReg(0))),
        Terminator::ExitWith(VReg(0)),
        Terminator::Unwind { src: VReg(0) },
    ] {
        assert_eq!(end_operand(&term), Some(0));
        let f = function(
            2,
            vec![Instr::Const { dst: VReg(0), imm: 1 }, Instr::Const { dst: VReg(1), imm: 2 }],
            term,
        );
        let a = allocate(&f);
        assert_eq!(a.loc, vec![Loc::Reg(Phys::Rbx), Loc::Reg(Phys::R12)]);
    }
    assert_eq!(end_operand(&Terminator::Ret(None)), None);
    assert_eq!(end_operand(&Terminator::Rethrow), None);
}

#[test]
fn a_scanned_number_is_a_definition() {
    assert_eq!(uses_and_defs(&Instr::ScanInt { dst: VReg(4) }), (Some(4), vec![]));
    let f = function(
        2,
        vec![Instr::Const { dst: VReg(0), imm: 1 }, Instr::ScanInt { dst: VReg(1) }],
        Terminator::Ret(Some(VReg(0))),
    );
    let a = allocate(&f);
    assert_ne!(a.loc[0], a.loc[1]);
}

#[test]
fn operands_are_sorted_and_named_once() {
    let call = Instr::CallVirt {
        dst: VReg(3),
        slot: 0,
        recv: VReg(2),
        args: vec![VReg(1), VReg(2), VReg(1)],
    };
    assert_eq!(uses_and_defs(&call), (Some(3), vec![1, 2, 3]));
    let twice = Instr::Bin { dst: VReg(0), op: BinOp::Add, a: VReg(7), b: VReg(7) };
    assert_eq!(uses_and_defs(&twice), (Some(0), vec![7]));
    let address = Instr::LoadImport { dst: VReg(6), import: 0 };
    assert_eq!(uses_and_defs(&address), (Some(6), vec![]));
    let down = Instr::StoreField { base: VReg(9), off: 0, src: VReg(5) };
    assert_eq!(uses_and_defs(&down), (None, vec![5, 9]));
}

#[test]
fn every_slot_is_some_value_s_home() {
    let mut instrs = Vec::new();
    for v in 0..9u32 {
        instrs.push(Instr::Const { dst: VReg(v), imm: 1 });
    }
    for v in 0..9u32 {
        instrs.push(Instr::WriteInt { src: VReg(v) });
    }
    let a = allocate(&function(9, instrs, Terminator::Ret(None)));
    assert_eq!(a.spills, 4);
    for k in 0..a.spills {
        assert_eq!(a.loc.iter().filter(|l| **l == Loc::Slot(k)).count(), 1);
    }
}

#[test]
fn incoming_values_have_homes_of_their_own() {
    let mut f = function(7, vec![], Terminator::Ret(None));
    f.receiver = ReceiverKind::This;
    f.arity = 6;
    let a = allocate(&f);
    for v in 0..7usize {
        for w in 0..v {
            assert_ne!(a.loc[v], a.loc[w]);
        }
    }
}
