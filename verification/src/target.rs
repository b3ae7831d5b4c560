//! What the encoder hands to the image writers: machine code with its
//! relocations, and the symbols that the relocations name.
use vstd::prelude::*;

verus! {

/// Platforms that this crate emits for.
#[derive(Debug, Clone, Copy, PartialEq, Eq, Structural)]
pub enum Target {
    LinuxX86_64,
}

/// The blob that a relocation patches.
#[derive(Debug, Clone, Copy, PartialEq, Eq, Structural)]
pub enum Section {
    Code,
    Data,
}

/// How a relocation patches its site.
#[derive(Debug, Clone, Copy, PartialEq, Eq, Structural)]
pub enum RelocKind {
    /// Eight bytes: the address of the symbol.
    Abs64,
    /// Four bytes: the distance from the end of the site to the symbol.
    Rel32Call,
}

/// What a relocation refers to.
#[derive(Debug, Clone, Copy, PartialEq, Eq, Structural)]
pub enum Sym {
    /// The function with this index in `MachineCode::fn_bases`.
    Fn(usize),
    /// A byte offset of the data blob.
    String(usize),
    /// The byte offset of a vtable row in the data blob.
    VtableOff(usize),
    /// The slot with this index in `MachineCode::static_offsets`.
    Static(usize),
    HeapBase,
    HelperItoa,
    HelperItoaErr,
    HelperScanInt,
    HelperRetain,
    HelperRelease,
    HelperAlloc,
    /// The import with this index in `MachineCode::import_bases`.
    Import(usize),
    /// The name with this index.
    Name(usize),
    HelperExcEnter,
    HelperExcPop,
    HelperExcThrow,
    HelperExcRethrow,
    HelperExcLoad,
    HelperExcClear,
    /// The byte offset of the exception state block in the data blob.
    ExcState(usize),
    /// The slot that holds the stack pointer of process start.
    ArgvRsp,
}

/// A site to patch once the address of its symbol is known.
#[derive(Debug, Clone, Copy, PartialEq, Eq, Structural)]
pub struct Reloc {
    pub kind: RelocKind,
    pub section: Section,
    pub site: usize,
    pub sym: Sym,
}

/// A code blob and a data blob, with everything that is needed to place them.
#[derive(Debug, Clone)]
pub struct MachineCode {
    pub code: Vec<u8>,
    pub data: Vec<u8>,
    pub fn_bases: Vec<usize>,
    pub vtable_offsets: Vec<usize>,
    /// Class path of each vtable row, parallel to `vtable_offsets`.
    pub vtable_names: Vec<String>,
    pub static_offsets: Vec<usize>,
    /// Symbol of each static slot, parallel to `static_offsets`.
    pub static_names: Vec<String>,
    pub helper_itoa: Option<usize>,
    pub helper_itoa_err: Option<usize>,
    pub helper_scan_int: Option<usize>,
    pub helper_retain: Option<usize>,
    pub helper_release: Option<usize>,
    pub helper_alloc: Option<usize>,
    pub helper_exc_enter: Option<usize>,
    pub helper_exc_pop: Option<usize>,
    pub helper_exc_throw: Option<usize>,
    pub helper_exc_rethrow: Option<usize>,
    pub helper_exc_load: Option<usize>,
    pub helper_exc_clear: Option<usize>,
    pub exc_state_offset: Option<usize>,
    pub helper_argv: Option<usize>,
    /// Library and entry name of each import.
    pub import_names: Vec<(String, String)>,
    pub import_bases: Vec<usize>,
    /// Load-time addresses; meaningful in one process only.
    pub import_abs: Vec<u64>,
    /// Name, function index and arity of each export.
    pub exports: Vec<(String, usize, usize)>,
    /// Whether the body of each export takes a receiver.
    pub export_takes_receiver: Vec<bool>,
    /// Index of the function that runs when a shared library is loaded.
    pub init_fn: Option<usize>,
    pub relocs: Vec<Reloc>,
    pub heap_size: u64,
}

/// Failures of the target.
#[derive(Debug)]
pub enum TargetError {
    /// A serialized object that does not decode.
    BadObject(String),
}

/// What a byte buffer handed to the loader holds.
#[derive(Debug, Clone, Copy, PartialEq, Eq, Structural)]
pub enum InputKind {
    Source,
    /// Bytecode whose payload starts at this offset of the buffer.
    Bytecode { payload_start: usize },
}

/// `MachineCode` as a mathematical value.
#[verifier::ext_equal]
pub struct McView {
    pub code: Seq<u8>,
    pub data: Seq<u8>,
    pub fn_bases: Seq<usize>,
    pub vtable_offsets: Seq<usize>,
    pub vtable_names: Seq<Seq<char>>,
    pub static_offsets: Seq<usize>,
    pub static_names: Seq<Seq<char>>,
    pub helper_itoa: Option<usize>,
    pub helper_itoa_err: Option<usize>,
    pub helper_scan_int: Option<usize>,
    pub helper_retain: Option<usize>,
    pub helper_release: Option<usize>,
    pub helper_alloc: Option<usize>,
    pub helper_exc_enter: Option<usize>,
    pub helper_exc_pop: Option<usize>,
    pub helper_exc_throw: Option<usize>,
    pub helper_exc_rethrow: Option<usize>,
    pub helper_exc_load: Option<usize>,
    pub helper_exc_clear: Option<usize>,
    pub exc_state_offset: Option<usize>,
    pub helper_argv: Option<usize>,
    pub import_names: Seq<(Seq<char>, Seq<char>)>,
    pub import_bases: Seq<usize>,
    pub import_abs: Seq<u64>,
    pub exports: Seq<(Seq<char>, usize, usize)>,
    pub export_takes_receiver: Seq<bool>,
    pub init_fn: Option<usize>,
    pub relocs: Seq<Reloc>,
    pub heap_size: u64,
}

/// The strings of `v`.
pub open spec fn texts(v: Seq<String>) -> Seq<Seq<char>> {
    Seq::new(v.len(), |k: int| v[k]@)
}

/// The string pairs of `v`.
pub open spec fn text_pairs(v: Seq<(String, String)>) -> Seq<(Seq<char>, Seq<char>)> {
    Seq::new(v.len(), |k: int| (v[k].0@, v[k].1@))
}

/// The exports of `v`.
pub open spec fn export_views(v: Seq<(String, usize, usize)>) -> Seq<(Seq<char>, usize, usize)> {
    Seq::new(v.len(), |k: int| (v[k].0@, v[k].1, v[k].2))
}

impl View for MachineCode {
    type V = McView;

    open spec fn view(&self) -> McView {
        McView {
            code: self.code@,
            data: self.data@,
            fn_bases: self.fn_bases@,
            vtable_offsets: self.vtable_offsets@,
            vtable_names: texts(self.vtable_names@),
            static_offsets: self.static_offsets@,
            static_names: texts(self.static_names@),
            helper_itoa: self.helper_itoa,
            helper_itoa_err: self.helper_itoa_err,
            helper_scan_int: self.helper_scan_int,
            helper_retain: self.helper_retain,
            helper_release: self.helper_release,
            helper_alloc: self.helper_alloc,
            helper_exc_enter: self.helper_exc_enter,
            helper_exc_pop: self.helper_exc_pop,
            helper_exc_throw: self.helper_exc_throw,
            helper_exc_rethrow: self.helper_exc_rethrow,
            helper_exc_load: self.helper_exc_load,
            helper_exc_clear: self.helper_exc_clear,
            exc_state_offset: self.exc_state_offset,
            helper_argv: self.helper_argv,
            import_names: text_pairs(self.import_names@),
            import_bases: self.import_bases@,
            import_abs: self.import_abs@,
            exports: export_views(self.exports@),
            export_takes_receiver: self.export_takes_receiver@,
            init_fn: self.init_fn,
            relocs: self.relocs@,
            heap_size: self.heap_size,
        }
    }
}

} // verus!
