//! The virtual-register program that the encoder consumes.
use vstd::prelude::*;

verus! {

/// A virtual register.
#[derive(Debug, Clone, Copy, PartialEq, Eq, Structural)]
pub struct VReg(pub u32);

/// Index of a block in its function.
pub type BlockId = u32;

/// Integer operations of two operands.
#[derive(Debug, Clone, Copy, PartialEq, Eq, Structural)]
pub enum BinOp {
    Add,
    Sub,
    Mul,
    Div,
    Rem,
    And,
    Or,
    BitAnd,
    BitOr,
    BitXor,
    Shl,
    /// Arithmetic right shift.
    Shr,
    /// Logical right shift.
    ShrShr,
    /// Type test; resolved to a constant before encoding.
    Is,
}

/// Integer comparisons.
#[derive(Debug, Clone, Copy, PartialEq, Eq, Structural)]
pub enum CmpOp {
    Eq,
    Ne,
    Lt,
    Gt,
    Le,
    Ge,
}

/// Double-precision operations of two operands.
#[derive(Debug, Clone, Copy, PartialEq, Eq, Structural)]
pub enum FBinOp {
    Add,
    Sub,
    Mul,
    Div,
}

/// Double-precision comparisons.
#[derive(Debug, Clone, Copy, PartialEq, Eq, Structural)]
pub enum FCmpOp {
    Eq,
    Ne,
    Lt,
    Gt,
    Le,
    Ge,
}

/// One instruction of a block.
#[derive(Debug, Clone)]
pub enum Instr {
    Const { dst: VReg, imm: i64 },
    /// A double, given by its bit pattern.
    FConst { dst: VReg, bits: u64 },
    Mov { dst: VReg, a: VReg },
    /// Machine code to emit as it stands.
    Raw(Vec<u8>),
    Bin { dst: VReg, op: BinOp, a: VReg, b: VReg },
    Cmp { dst: VReg, op: CmpOp, a: VReg, b: VReg },
    Neg { dst: VReg, a: VReg },
    FBin { dst: VReg, op: FBinOp, a: VReg, b: VReg },
    FCmp { dst: VReg, op: FCmpOp, a: VReg, b: VReg },
    FNeg { dst: VReg, a: VReg },
    CallFn { dst: VReg, fidx: u32, args: Vec<VReg> },
    CallStatic { dst: VReg, fidx: u32, args: Vec<VReg> },
    CallVirt { dst: VReg, slot: u32, recv: VReg, args: Vec<VReg> },
    CallImport { dst: VReg, import: u32, args: Vec<VReg> },
    CallByName { dst: VReg, name: u32, recv: VReg, args: Vec<VReg> },
    LoadImport { dst: VReg, import: u32 },
    Alloc { dst: VReg, bytes: u32 },
    AllocDyn { dst: VReg, bytes: VReg },
    StackAlloc { dst: VReg, bytes: u32 },
    VTableAddr { dst: VReg, row: u32 },
    LoadStaticAddr { dst: VReg, idx: u32 },
    LoadStrAddr { dst: VReg, off: u32 },
    LoadField { dst: VReg, base: VReg, off: u32 },
    LoadByte { dst: VReg, base: VReg, off: u32 },
    StoreField { base: VReg, off: u32, src: VReg },
    BuildArgv { dst: VReg },
    WriteStr { off: u32, len: u32 },
    EWriteStr { off: u32, len: u32 },
    WriteString { src: VReg },
    WriteInt { src: VReg },
    EWriteInt { src: VReg },
    ScanInt { dst: VReg },
    MemCpy { dst: VReg, src: VReg, len: VReg },
    MemCmp { dst: VReg, a: VReg, b: VReg, len: VReg },
    Retain { src: VReg },
    Release { src: VReg, bytes: u32 },
    Drop { src: VReg },
    Exit,
    HandlerEnter { dst: VReg },
    HandlerPop,
    LoadExc { dst: VReg },
    ClearInflight,
    TaskAlloc { dst: VReg, bytes: u32 },
    Suspend { state: VReg },
    CoroutineResume { task: VReg, dst: VReg },
}

/// How a block ends.
#[derive(Debug, Clone, Copy)]
pub enum Terminator {
    Ret(Option<VReg>),
    Exit,
    ExitWith(VReg),
    /// Without a condition, always to `if_true`.
    Branch { cond: Option<VReg>, if_true: BlockId, if_false: BlockId },
    Unwind { src: VReg },
    Rethrow,
}

/// A straight run of instructions.
#[derive(Debug, Clone)]
pub struct Block {
    pub instrs: Vec<Instr>,
    pub term: Terminator,
}

/// Whether a function takes a receiver in front of its parameters.
#[derive(Debug, Clone, Copy, PartialEq, Eq, Structural)]
pub enum ReceiverKind {
    Static,
    This,
}

/// A function: `vregs` virtual registers and its blocks in layout order.
#[derive(Debug, Clone)]
pub struct IrFunction {
    pub name: String,
    pub receiver: ReceiverKind,
    pub arity: usize,
    pub vregs: u32,
    pub blocks: Vec<Block>,
}

/// A static field of a class.
#[derive(Debug, Clone)]
pub struct StaticField {
    pub class: String,
    pub name: String,
}

/// A whole program.
#[derive(Debug, Clone)]
pub struct Program {
    pub functions: Vec<IrFunction>,
    pub statics: Vec<StaticField>,
    /// Class path and function index of each slot, per vtable row. An
    /// abstract slot holds `usize::MAX`.
    pub vtables: Vec<(String, Vec<usize>)>,
    /// Library and entry name of each import.
    pub imports: Vec<(String, String)>,
    /// Name, function index and arity of each export.
    pub exports: Vec<(String, usize, usize)>,
    /// The string blob that `WriteStr` and `LoadStrAddr` point into.
    pub strings: Vec<u8>,
    pub heap_size: u64,
    pub names: Vec<String>,
    pub entry: Option<usize>,
    pub init: Option<usize>,
}

impl IrFunction {
    /// Whether the function takes a receiver.
    pub open spec fn has_receiver(self) -> bool {
        self.receiver != ReceiverKind::Static
    }

    /// Number of values that arrive in registers.
    pub open spec fn incoming(self) -> int {
        self.arity + if self.has_receiver() {
            1int
        } else {
            0
        }
    }
}

} // verus!
