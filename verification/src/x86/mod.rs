//! The x86-64 Linux back end: instruction encoder, register allocator, image
//! writers, input classifier and executable pages.
use crate::target::Target;
use vstd::prelude::*;

pub mod access;
pub mod argv;
pub mod arithmetic;
pub mod calls;
pub mod control;
pub mod elf;
pub mod emit;
pub mod encode_x64;
pub mod entries;
pub mod executable;
pub mod fragments;
pub mod frame;
pub mod function;
pub mod helpers;
pub mod instrs;
pub mod liveness;
pub mod loader;
pub mod machine;
pub mod memory;
pub mod operands;
pub mod pipeline;
pub mod program;
pub mod ready;
pub mod regalloc;
pub mod requests;
pub mod runtime;
pub mod shared;
pub mod shlib;
pub mod stretches;
pub mod symbols;
pub mod tasks;
pub mod windows;

verus! {

/// The platform that this back end emits for.
pub const TARGET: Target = Target::LinuxX86_64;

/// Machine-code backend of this target.
pub const BACKEND: encode_x64::Backend = encode_x64::Backend;

/// Image writer of this target.
pub const IMAGE_WRITER: elf::Writer = elf::Writer;

/// Input classifier of this target.
pub const LOADER: loader::Loader = loader::Loader;

/// Memory manager of this target.
pub const MEMORY: memory::Memory = memory::Memory;

} // verus!
