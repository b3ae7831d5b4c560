//! Input classification: shebang skipping and 🐕🇨 magic detection decide
//! whether stdin bytes are source or bytecode.

use linux_x86_64::container;
use linux_x86_64::target::InputKind;
use linux_x86_64::x86::loader::{Loader, LOADER};

fn wrapped(shebang: bool, jump: bool) -> Vec<u8> {
    let mut v = Vec::new();
    if shebang {
        v.extend_from_slice(b"#!/usr/bin/env rubyc\n");
    }
    if jump {
        v.extend_from_slice(&container::JUMP_OVER_MAGIC);
    }
    v.extend_from_slice(&container::MAGIC);
    v.extend_from_slice(&[0x01, 0x00, 0x00]); // kind + version stub
    v
}

#[test]
fn classifies_all_wrappings() {
    assert_eq!(
        LOADER.sniff(&wrapped(true, true)),
        InputKind::Bytecode { payload_start: 31 }
    );
    assert_eq!(
        LOADER.sniff(&wrapped(false, true)),
        InputKind::Bytecode { payload_start: 10 }
    );
    // Without the jump prefix the magic sits right after the shebang.
    assert_eq!(
        LOADER.sniff(&wrapped(true, false)),
        InputKind::Bytecode { payload_start: 29 }
    );
    assert_eq!(
        LOADER.sniff(&wrapped(false, false)),
        InputKind::Bytecode { payload_start: 8 }
    );
}

#[test]
fn plain_bytes_are_source() {
    assert_eq!(
        LOADER.sniff(b"namespace t;"),
        InputKind::Source
    );
    assert_eq!(
        LOADER.sniff(b"#!\nno newline magic"),
        InputKind::Source
    );
    assert_eq!(LOADER.sniff(b""), InputKind::Source);
}

#[test]
fn loader_is_a_zero_sized_singleton() {
    // Both spellings are the same unit struct; the const exists for
    // embedding call sites.
    let _ = Loader;
    let _: Loader = LOADER;
}

#[test]
fn payload_is_what_follows_the_marker() {
    let mut file = wrapped(true, true);
    file.extend_from_slice(b"payload");
    match LOADER.sniff(&file) {
        InputKind::Bytecode { payload_start } => {
            assert_eq!(&file[payload_start - 8..payload_start], &container::MAGIC);
            assert_eq!(&file[payload_start + 3..], b"payload");
        }
        InputKind::Source => panic!("marked input"),
    }
}

#[test]
fn an_unfinished_interpreter_line_is_source() {
    let mut file = b"#!/usr/bin/env rubyc ".to_vec();
    file.extend_from_slice(&container::MAGIC);
    assert_eq!(LOADER.sniff(&file), InputKind::Source);
}

#[test]
fn a_truncated_marker_is_source() {
    assert_eq!(LOADER.sniff(&container::MAGIC[..7]), InputKind::Source);
    assert_eq!(LOADER.sniff(&container::JUMP_OVER_MAGIC), InputKind::Source);
}
