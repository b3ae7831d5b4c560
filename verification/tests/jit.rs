//! Running machine code in memory, step by step.

use linux_x86_64::jit::{jit_layout, jit_next, jit_plan, JitAction, JitEvent, JitLayout, JitStage};
use linux_x86_64::mc_serialize::{decode, encode};
use linux_x86_64::target::MachineCode;

fn sized(code: usize, data: usize, heap: u64) -> MachineCode {
    MachineCode {
        code: vec![0xC3; code],
        data: vec![0; data],
        fn_bases: vec![0],
        vtable_offsets: vec![],
        vtable_names: vec![],
        static_offsets: vec![],
        static_names: vec![],
        helper_itoa: None,
        helper_itoa_err: None,
        helper_scan_int: None,
        helper_retain: None,
        helper_release: None,
        helper_alloc: None,
        helper_exc_enter: None,
        helper_exc_pop: None,
        helper_exc_throw: None,
        helper_exc_rethrow: None,
        helper_exc_load: None,
        helper_exc_clear: None,
        exc_state_offset: None,
        helper_argv: None,
        import_names: vec![],
        import_bases: vec![],
        import_abs: vec![],
        exports: vec![],
        export_takes_receiver: vec![],
        init_fn: None,
        relocs: vec![],
        heap_size: heap,
    }
}

#[test]
fn layout_takes_whole_pages() {
    let l = jit_layout(&sized(1, 4096, 4097)).unwrap();
    assert_eq!(l, JitLayout { code_len: 4096, data_len: 4096, heap_len: 8192 });
    assert_eq!(jit_layout(&sized(0, 0, 0)).unwrap(), JitLayout { code_len: 0, data_len: 0, heap_len: 0 });
    assert_eq!(jit_layout(&sized(1, 0, u64::MAX)), None);
}

#[test]
fn layout_survives_serialization() {
    let mc = sized(5000, 3, 16);
    let back = decode(&encode(&mc)).unwrap();
    assert_eq!(jit_layout(&mc), jit_layout(&back));
}

#[test]
fn a_run_goes_from_mapping_to_unmapping() {
    let l = JitLayout { code_len: 4096, data_len: 8192, heap_len: 4096 };
    let (stage, action) = jit_next(&l, JitStage::Ready, JitEvent::Start);
    assert!(matches!(action, JitAction::MapPages { len: 16384 }));
    let (stage, action) = jit_next(&l, stage, JitEvent::Mapped(Ok(0x10000)));
    assert!(matches!(
        action,
        JitAction::Install {
            code_at: 0x10000,
            data_at: 0x11000,
            heap_at: 0x13000,
            heap_head: Some((0, 0x14000)),
        }
    ));
    let (stage, action) = jit_next(&l, stage, JitEvent::Installed);
    assert!(matches!(action, JitAction::Protect { addr: 0x10000, len: 4096 }));
    let (stage, action) = jit_next(&l, stage, JitEvent::Protected(Ok(())));
    assert!(matches!(action, JitAction::Invoke { addr: 0x10000 }));
    let (stage, action) = jit_next(&l, stage, JitEvent::Returned(42));
    assert!(matches!(action, JitAction::UnmapPages { addr: 0x10000, len: 16384 }));
    let (stage, action) = jit_next(&l, stage, JitEvent::Unmapped);
    assert!(matches!(action, JitAction::Finish { status: 42 }));
    assert_eq!(stage, JitStage::Done);
}

#[test]
fn without_a_heap_there_is_no_head() {
    let l = JitLayout { code_len: 4096, data_len: 0, heap_len: 0 };
    let (_, action) = jit_next(&l, JitStage::Mapping, JitEvent::Mapped(Ok(0x10000)));
    assert!(matches!(action, JitAction::Install { heap_head: None, heap_at: 0x11000, .. }));
}

#[test]
fn failures_end_the_run() {
    let l = JitLayout { code_len: 4096, data_len: 0, heap_len: 0 };
    let (stage, action) = jit_next(&l, JitStage::Mapping, JitEvent::Mapped(Err("no memory".to_string())));
    assert_eq!(stage, JitStage::Done);
    match action {
        JitAction::Fail { message } => assert_eq!(message, "mmap: no memory"),
        _ => panic!("a failed map ends the run"),
    }
    let (stage, action) =
        jit_next(&l, JitStage::Protecting { page: 0x1000 }, JitEvent::Protected(Err("denied".to_string())));
    assert_eq!(stage, JitStage::Done);
    match action {
        JitAction::Fail { message } => assert_eq!(message, "mprotect: denied"),
        _ => panic!("a failed protect ends the run"),
    }
}

#[test]
fn plans_come_from_serialized_code() {
    let mc = sized(5000, 3, 16);
    let (back, layout) = jit_plan(&encode(&mc)).unwrap();
    assert_eq!(back.code, mc.code);
    assert_eq!(layout, Some(JitLayout { code_len: 8192, data_len: 4096, heap_len: 4096 }));
    let (_, layout) = jit_plan(&encode(&sized(1, 0, u64::MAX))).unwrap();
    assert_eq!(layout, None);
    assert_eq!(jit_plan(&[0xFF, 0xFF]).unwrap_err(), "machine code: bad magic");
}

#[test]
fn run_machine_code_fails_on_garbage() {
    let result = jit_plan(&[0xFF, 0xFF]);
    assert!(result.is_err());
}
