# linux_x86_64

The x86-64 Linux target of a compiler tool chain, verified with Verus: from
virtual-register programs to machine code, and from machine code to
executables, shared objects and pages to run.

- `src/ir.rs`, `src/target.rs`, `src/container.rs` hold the values that go in
  and come out.
- `src/x86/liveness.rs`, `src/x86/regalloc.rs` give every virtual register a
  home.
- `src/x86/emit.rs`, `src/x86/instrs.rs`, `src/x86/function.rs`,
  `src/x86/encode_x64.rs` emit code; `src/x86/ready.rs` decides whether a
  program has code on this target; `src/x86/windows.rs` proves the shapes of
  the sites that are left open, and `src/x86/helpers.rs` which runtime helpers
  come along.
- `src/mc_serialize.rs` is the byte format of machine code.
- `src/x86/elf.rs` and `src/x86/shlib.rs` write images.
- `src/x86/pipeline.rs` proves what holds from one stage to the next.
- `src/x86/loader.rs` classifies inputs; `src/x86/memory.rs` and `src/jit.rs`
  decide on the system calls and the steps of running code in memory.

The runtime helpers are machine code that is assembled elsewhere; they are
handed in as a `Runtime`. `app/` connects the library to the tool chain and to
the operating system.

Functions ask in `requires` for what they need. `Backend::can_lower`,
`Writer::can_write_image` and `can_write_shared_library` decide it at run time.
