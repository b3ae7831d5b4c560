//! `MachineCode` as a flat little-endian byte buffer:
//!
//! ```text
//!   [u32 magic 0x524D4331]  "MCM1"
//!   [u64 code_len][code]
//!   [u64 data_len][data]
//!   [u32 fn_bases_count][u64 x N]
//!   [u32 vtable_offsets_count][u64 x N]
//!   [u32 static_offsets_count][u64 x N]
//!   [u8 helper flags][u64 x set flags]
//!   [u8 exception helper flags][u64 x set flags]
//!   [u32 imports_count][ (string lib, string entry) x N ]
//!   [u32 import_bases_count][u64 x N]
//!   [u32 exports_count][ (string name, u32 fn_idx, u32 arity) x N ]
//!   [u32 relocs_count][ (u8 kind, u8 section, u64 site, u8 sym_tag, u64 sym_arg) x N ]
//!   [u64 heap_size]
//!   [u32 vtable_names_count][ string x N ]     may be missing
//!   [u32 static_names_count][ string x N ]     may be missing
//!   [u32 export_recv_count][ u8 x N ]          may be missing
//!   [u32 init_fn or 0xFFFFFFFF]                may be missing
//! ```
//!
//! A string is its length in bytes as a u32, and its UTF-8 bytes. Load-time
//! addresses (`import_abs`) are not part of the format.
//!
//! A parser takes a byte string and gives a value and the bytes behind it, or
//! a message.
use crate::bytes::{
    get_u32, get_u64, le32, le64, lemma_assoc, lemma_u32_at, lemma_u64_at, push_bytes, push_u32,
    push_u64, u32_at, u64_at, wrap32,
};
use crate::target::{
    export_views, text_pairs, texts, MachineCode, McView, Reloc, RelocKind, Section, Sym,
};
use vstd::prelude::*;
use vstd::slice::slice_subrange;
use vstd::utf8::{decode_utf8, encode_utf8, valid_utf8};

verus! {

/// "MCM1".
pub const MAGIC: u32 = 0x524D_4331;

/// A value and the bytes behind it, or a message.
pub type Parse<T> = Result<(T, Seq<u8>), Seq<char>>;

// ---- parsers

pub open spec fn p_byte(b: Seq<u8>) -> Parse<u8> {
    if b.len() < 1 {
        Err("machine code: truncated"@)
    } else {
        Ok((b[0], b.skip(1)))
    }
}

pub open spec fn p_u32(b: Seq<u8>) -> Parse<u32> {
    if b.len() < 4 {
        Err("machine code: truncated u32"@)
    } else {
        Ok((u32_at(b, 0), b.skip(4)))
    }
}

pub open spec fn p_u64(b: Seq<u8>) -> Parse<u64> {
    if b.len() < 8 {
        Err("machine code: truncated u64"@)
    } else {
        Ok((u64_at(b, 0), b.skip(8)))
    }
}

/// A 64-bit number as a size.
pub open spec fn p_word(b: Seq<u8>) -> Parse<usize> {
    match p_u64(b) {
        Ok((x, rest)) => Ok((x as usize, rest)),
        Err(m) => Err(m),
    }
}

/// `n` bytes.
pub open spec fn p_bytes(b: Seq<u8>, n: int) -> Parse<Seq<u8>> {
    if b.len() < n {
        Err("machine code: truncated"@)
    } else {
        Ok((b.take(n), b.skip(n)))
    }
}

/// A 64-bit length and as many bytes.
#[verifier::opaque]
pub open spec fn p_blob(b: Seq<u8>) -> Parse<Seq<u8>> {
    match p_word(b) {
        Ok((n, rest)) => p_bytes(rest, n as int),
        Err(m) => Err(m),
    }
}

/// What `String::from_utf8_lossy` makes of a byte string.
pub uninterp spec fn utf8_lossy(bytes: Seq<u8>) -> Seq<char>;

/// The text that `bytes` stand for: what they encode, or, where they are not
/// UTF-8, a text with replacement characters.
pub open spec fn text_of(bytes: Seq<u8>) -> Seq<char> {
    if valid_utf8(bytes) {
        decode_utf8(bytes)
    } else {
        utf8_lossy(bytes)
    }
}

/// A string.
#[verifier::opaque]
pub open spec fn p_str(b: Seq<u8>) -> Parse<Seq<char>> {
    match p_u32(b) {
        Ok((n, rest)) => match p_bytes(rest, n as int) {
            Ok((s, rest)) => Ok((text_of(s), rest)),
            Err(m) => Err(m),
        },
        Err(m) => Err(m),
    }
}

/// `n` values, one behind the other.
pub open spec fn p_many<T>(p: spec_fn(Seq<u8>) -> Parse<T>, b: Seq<u8>, n: nat) -> Parse<Seq<T>>
    decreases n,
{
    if n == 0 {
        Ok((Seq::empty(), b))
    } else {
        match p_many(p, b, (n - 1) as nat) {
            Ok((xs, rest)) => match p(rest) {
                Ok((x, rest)) => Ok((xs.push(x), rest)),
                Err(m) => Err(m),
            },
            Err(m) => Err(m),
        }
    }
}

/// A 32-bit count and as many values.
#[verifier::opaque]
pub open spec fn p_list<T>(p: spec_fn(Seq<u8>) -> Parse<T>, b: Seq<u8>) -> Parse<Seq<T>> {
    match p_u32(b) {
        Ok((n, rest)) => p_many(p, rest, n as nat),
        Err(m) => Err(m),
    }
}

/// A list, or nothing at the end of the buffer.
pub open spec fn p_trailing<T>(p: spec_fn(Seq<u8>) -> Parse<T>, b: Seq<u8>) -> Parse<Seq<T>> {
    if b.len() == 0 {
        Ok((Seq::empty(), b))
    } else {
        p_list(p, b)
    }
}

pub open spec fn word() -> spec_fn(Seq<u8>) -> Parse<usize> {
    |b: Seq<u8>| p_word(b)
}

pub open spec fn text() -> spec_fn(Seq<u8>) -> Parse<Seq<char>> {
    |b: Seq<u8>| p_str(b)
}

/// A byte that is not zero.
pub open spec fn truth() -> spec_fn(Seq<u8>) -> Parse<bool> {
    |b: Seq<u8>|
        match p_byte(b) {
            Ok((x, rest)) => Ok((x != 0, rest)),
            Err(m) => Err(m),
        }
}

/// Two strings.
pub open spec fn p_import(b: Seq<u8>) -> Parse<(Seq<char>, Seq<char>)> {
    match p_str(b) {
        Ok((lib, rest)) => match p_str(rest) {
            Ok((name, rest)) => Ok(((lib, name), rest)),
            Err(m) => Err(m),
        },
        Err(m) => Err(m),
    }
}

pub open spec fn import() -> spec_fn(Seq<u8>) -> Parse<(Seq<char>, Seq<char>)> {
    |b: Seq<u8>| p_import(b)
}

/// A name, a function index and an arity.
pub open spec fn p_export(b: Seq<u8>) -> Parse<(Seq<char>, usize, usize)> {
    match p_str(b) {
        Ok((name, rest)) => match p_u32(rest) {
            Ok((f, rest)) => match p_u32(rest) {
                Ok((arity, rest)) => Ok(((name, f as usize, arity as usize), rest)),
                Err(m) => Err(m),
            },
            Err(m) => Err(m),
        },
        Err(m) => Err(m),
    }
}

pub open spec fn export() -> spec_fn(Seq<u8>) -> Parse<(Seq<char>, usize, usize)> {
    |b: Seq<u8>| p_export(b)
}

/// Tag and argument of a symbol.
pub open spec fn sym_code(s: Sym) -> (u8, u64) {
    match s {
        Sym::Fn(i) => (0, i as u64),
        Sym::String(i) => (1, i as u64),
        Sym::VtableOff(i) => (2, i as u64),
        Sym::HeapBase => (3, 0),
        Sym::HelperItoa => (4, 0),
        Sym::HelperItoaErr => (5, 0),
        Sym::HelperScanInt => (6, 0),
        Sym::HelperRetain => (7, 0),
        Sym::HelperRelease => (8, 0),
        Sym::HelperAlloc => (9, 0),
        Sym::Import(i) => (10, i as u64),
        Sym::Name(i) => (11, i as u64),
        Sym::Static(i) => (12, i as u64),
        Sym::HelperExcEnter => (13, 0),
        Sym::HelperExcPop => (14, 0),
        Sym::HelperExcThrow => (15, 0),
        Sym::HelperExcRethrow => (16, 0),
        Sym::HelperExcLoad => (17, 0),
        Sym::HelperExcClear => (18, 0),
        Sym::ExcState(i) => (19, i as u64),
        Sym::ArgvRsp => (20, 0),
    }
}

/// The symbol of a tag and an argument.
pub open spec fn sym_of(tag: u8, arg: u64) -> Option<Sym> {
    let i = arg as usize;
    if tag == 0 {
        Some(Sym::Fn(i))
    } else if tag == 1 {
        Some(Sym::String(i))
    } else if tag == 2 {
        Some(Sym::VtableOff(i))
    } else if tag == 3 {
        Some(Sym::HeapBase)
    } else if tag == 4 {
        Some(Sym::HelperItoa)
    } else if tag == 5 {
        Some(Sym::HelperItoaErr)
    } else if tag == 6 {
        Some(Sym::HelperScanInt)
    } else if tag == 7 {
        Some(Sym::HelperRetain)
    } else if tag == 8 {
        Some(Sym::HelperRelease)
    } else if tag == 9 {
        Some(Sym::HelperAlloc)
    } else if tag == 10 {
        Some(Sym::Import(i))
    } else if tag == 11 {
        Some(Sym::Name(i))
    } else if tag == 12 {
        Some(Sym::Static(i))
    } else if tag == 13 {
        Some(Sym::HelperExcEnter)
    } else if tag == 14 {
        Some(Sym::HelperExcPop)
    } else if tag == 15 {
        Some(Sym::HelperExcThrow)
    } else if tag == 16 {
        Some(Sym::HelperExcRethrow)
    } else if tag == 17 {
        Some(Sym::HelperExcLoad)
    } else if tag == 18 {
        Some(Sym::HelperExcClear)
    } else if tag == 19 {
        Some(Sym::ExcState(i))
    } else if tag == 20 {
        Some(Sym::ArgvRsp)
    } else {
        None
    }
}

/// Tag and argument of a symbol give the symbol back.
pub proof fn symbols_read_back(s: Sym)
    ensures
        sym_of(sym_code(s).0, sym_code(s).1) == Some(s),
{
}

/// Exactly the tags up to 20 stand for symbols.
pub proof fn tags_end_at_twenty(tag: u8, arg: u64)
    ensures
        sym_of(tag, arg) is None <==> tag > 20,
{
}

/// Different symbols have different codes.
pub proof fn symbols_differ(s: Sym, t: Sym)
    requires
        sym_code(s) == sym_code(t),
    ensures
        s == t,
{
    symbols_read_back(s);
    symbols_read_back(t);
}

pub open spec fn p_kind(b: Seq<u8>) -> Parse<RelocKind> {
    match p_byte(b) {
        Ok((x, rest)) => if x == 0 {
            Ok((RelocKind::Abs64, rest))
        } else if x == 1 {
            Ok((RelocKind::Rel32Call, rest))
        } else {
            Err("machine code: bad reloc kind"@)
        },
        Err(m) => Err(m),
    }
}

pub open spec fn p_section(b: Seq<u8>) -> Parse<Section> {
    match p_byte(b) {
        Ok((x, rest)) => if x == 0 {
            Ok((Section::Code, rest))
        } else if x == 1 {
            Ok((Section::Data, rest))
        } else {
            Err("machine code: bad reloc section"@)
        },
        Err(m) => Err(m),
    }
}

pub open spec fn p_sym(b: Seq<u8>) -> Parse<Sym> {
    match p_byte(b) {
        Ok((tag, rest)) => match p_u64(rest) {
            Ok((arg, rest)) => match sym_of(tag, arg) {
                Some(s) => Ok((s, rest)),
                None => Err("machine code: bad reloc sym"@),
            },
            Err(m) => Err(m),
        },
        Err(m) => Err(m),
    }
}

/// A relocation.
pub open spec fn p_reloc(b: Seq<u8>) -> Parse<Reloc> {
    match p_kind(b) {
        Ok((kind, rest)) => match p_section(rest) {
            Ok((section, rest)) => match p_word(rest) {
                Ok((site, rest)) => match p_sym(rest) {
                    Ok((sym, rest)) => Ok((Reloc { kind, section, site, sym }, rest)),
                    Err(m) => Err(m),
                },
                Err(m) => Err(m),
            },
            Err(m) => Err(m),
        },
        Err(m) => Err(m),
    }
}

pub open spec fn reloc() -> spec_fn(Seq<u8>) -> Parse<Reloc> {
    |b: Seq<u8>| p_reloc(b)
}

/// Bit `k` of `flags`.
pub open spec fn flag(flags: u8, k: int) -> bool
    decreases k,
{
    if k <= 0 {
        flags % 2 == 1
    } else {
        flag(flags / 2, k - 1)
    }
}

/// The first `n` optional sizes, each present where its bit of `flags` is set.
pub open spec fn p_options(b: Seq<u8>, flags: u8, n: nat) -> Parse<Seq<Option<usize>>>
    decreases n,
{
    if n == 0 {
        Ok((Seq::empty(), b))
    } else {
        match p_options(b, flags, (n - 1) as nat) {
            Ok((xs, rest)) => if flag(flags, n - 1) {
                match p_word(rest) {
                    Ok((x, rest)) => Ok((xs.push(Some(x)), rest)),
                    Err(m) => Err(m),
                }
            } else {
                Ok((xs.push(None), rest))
            },
            Err(m) => Err(m),
        }
    }
}

/// A byte of flags and `n` optional sizes.
#[verifier::opaque]
pub open spec fn p_flagged(b: Seq<u8>, n: nat) -> Parse<Seq<Option<usize>>> {
    match p_byte(b) {
        Ok((flags, rest)) => p_options(rest, flags, n),
        Err(m) => Err(m),
    }
}

/// The function to run at load time; all ones for none, as is the end of the
/// buffer.
pub open spec fn p_init(b: Seq<u8>) -> Parse<Option<usize>> {
    if b.len() == 0 {
        Ok((None, b))
    } else {
        match p_u32(b) {
            Ok((x, rest)) => Ok(
                (
                    if x == u32::MAX {
                        None
                    } else {
                        Some(x as usize)
                    },
                    rest,
                ),
            ),
            Err(m) => Err(m),
        }
    }
}

/// The blobs and offset tables at the front of the buffer.
#[verifier::ext_equal]
pub struct Tables {
    pub code: Seq<u8>,
    pub data: Seq<u8>,
    pub fn_bases: Seq<usize>,
    pub vtable_offsets: Seq<usize>,
    pub static_offsets: Seq<usize>,
    pub helpers: Seq<Option<usize>>,
    pub exc_helpers: Seq<Option<usize>>,
}

#[verifier::opaque]
pub open spec fn p_tables(b: Seq<u8>) -> Parse<Tables> {
    match p_blob(b) {
        Ok((code, rest)) => match p_blob(rest) {
            Ok((data, rest)) => match p_list(word(), rest) {
                Ok((fn_bases, rest)) => match p_list(word(), rest) {
                    Ok((vtable_offsets, rest)) => match p_list(word(), rest) {
                        Ok((static_offsets, rest)) => match p_flagged(rest, 6) {
                            Ok((helpers, rest)) => match p_flagged(rest, 8) {
                                Ok((exc_helpers, rest)) => Ok(
                                    (
                                        Tables {
                                            code,
                                            data,
                                            fn_bases,
                                            vtable_offsets,
                                            static_offsets,
                                            helpers,
                                            exc_helpers,
                                        },
                                        rest,
                                    ),
                                ),
                                Err(m) => Err(m),
                            },
                            Err(m) => Err(m),
                        },
                        Err(m) => Err(m),
                    },
                    Err(m) => Err(m),
                },
                Err(m) => Err(m),
            },
            Err(m) => Err(m),
        },
        Err(m) => Err(m),
    }
}

/// The tables that link the code to the outside.
#[verifier::ext_equal]
pub struct Links {
    pub import_names: Seq<(Seq<char>, Seq<char>)>,
    pub import_bases: Seq<usize>,
    pub exports: Seq<(Seq<char>, usize, usize)>,
    pub relocs: Seq<Reloc>,
    pub heap_size: u64,
}

#[verifier::opaque]
pub open spec fn p_links(b: Seq<u8>) -> Parse<Links> {
    match p_list(import(), b) {
        Ok((import_names, rest)) => match p_list(word(), rest) {
            Ok((import_bases, rest)) => match p_list(export(), rest) {
                Ok((exports, rest)) => match p_list(reloc(), rest) {
                    Ok((relocs, rest)) => match p_u64(rest) {
                        Ok((heap_size, rest)) => Ok(
                            (Links { import_names, import_bases, exports, relocs, heap_size }, rest),
                        ),
                        Err(m) => Err(m),
                    },
                    Err(m) => Err(m),
                },
                Err(m) => Err(m),
            },
            Err(m) => Err(m),
        },
        Err(m) => Err(m),
    }
}

/// The sections that may be missing.
#[verifier::ext_equal]
pub struct Tail {
    pub vtable_names: Seq<Seq<char>>,
    pub static_names: Seq<Seq<char>>,
    pub export_takes_receiver: Seq<bool>,
    pub init_fn: Option<usize>,
}

#[verifier::opaque]
pub open spec fn p_tail(b: Seq<u8>) -> Parse<Tail> {
    match p_trailing(text(), b) {
        Ok((vtable_names, rest)) => match p_trailing(text(), rest) {
            Ok((static_names, rest)) => match p_trailing(truth(), rest) {
                Ok((export_takes_receiver, rest)) => match p_init(rest) {
                    Ok((init_fn, rest)) => Ok(
                        (Tail { vtable_names, static_names, export_takes_receiver, init_fn }, rest),
                    ),
                    Err(m) => Err(m),
                },
                Err(m) => Err(m),
            },
            Err(m) => Err(m),
        },
        Err(m) => Err(m),
    }
}

/// The machine code that three groups of sections describe.
pub open spec fn assemble(t: Tables, l: Links, e: Tail) -> McView {
    McView {
        code: t.code,
        data: t.data,
        fn_bases: t.fn_bases,
        vtable_offsets: t.vtable_offsets,
        vtable_names: e.vtable_names,
        static_offsets: t.static_offsets,
        static_names: e.static_names,
        helper_itoa: t.helpers[0],
        helper_itoa_err: t.helpers[1],
        helper_scan_int: t.helpers[2],
        helper_retain: t.helpers[3],
        helper_release: t.helpers[4],
        helper_alloc: t.helpers[5],
        helper_exc_enter: t.exc_helpers[0],
        helper_exc_pop: t.exc_helpers[1],
        helper_exc_throw: t.exc_helpers[2],
        helper_exc_rethrow: t.exc_helpers[3],
        helper_exc_load: t.exc_helpers[4],
        helper_exc_clear: t.exc_helpers[5],
        exc_state_offset: t.exc_helpers[6],
        helper_argv: t.exc_helpers[7],
        import_names: l.import_names,
        import_bases: l.import_bases,
        import_abs: Seq::empty(),
        exports: l.exports,
        export_takes_receiver: e.export_takes_receiver,
        init_fn: e.init_fn,
        relocs: l.relocs,
        heap_size: l.heap_size,
    }
}

/// What `b` decodes to, or the message that says why it does not.
pub open spec fn decoded(b: Seq<u8>) -> Result<McView, Seq<char>> {
    if b.len() < 4 || u32_at(b, 0) != MAGIC {
        Err("machine code: bad magic"@)
    } else {
        match p_tables(b.skip(4)) {
            Ok((t, rest)) => match p_links(rest) {
                Ok((l, rest)) => match p_tail(rest) {
                    Ok((e, _)) => Ok(assemble(t, l, e)),
                    Err(m) => Err(m),
                },
                Err(m) => Err(m),
            },
            Err(m) => Err(m),
        }
    }
}

// ---- encoders

/// The low 32 bits of a length.
pub open spec fn e_count(n: nat) -> Seq<u8> {
    le32(wrap32(n as int))
}

#[verifier::opaque]
pub open spec fn e_blob(b: Seq<u8>) -> Seq<u8> {
    le64(b.len() as u64) + b
}

#[verifier::opaque]
pub open spec fn e_str(s: Seq<char>) -> Seq<u8> {
    e_count(encode_utf8(s).len()) + encode_utf8(s)
}

/// The encodings of `xs`, one behind the other.
pub open spec fn e_many<T>(e: spec_fn(T) -> Seq<u8>, xs: Seq<T>) -> Seq<u8>
    decreases xs.len(),
{
    if xs.len() == 0 {
        Seq::empty()
    } else {
        e_many(e, xs.drop_last()) + e(xs.last())
    }
}

#[verifier::opaque]
pub open spec fn e_list<T>(e: spec_fn(T) -> Seq<u8>, xs: Seq<T>) -> Seq<u8> {
    e_count(xs.len()) + e_many(e, xs)
}

pub open spec fn e_word() -> spec_fn(usize) -> Seq<u8> {
    |x: usize| le64(x as u64)
}

pub open spec fn e_text() -> spec_fn(Seq<char>) -> Seq<u8> {
    |s: Seq<char>| e_str(s)
}

pub open spec fn e_truth() -> spec_fn(bool) -> Seq<u8> {
    |x: bool|
        seq![
            if x {
                1u8
            } else {
                0u8
            },
        ]
}

pub open spec fn e_import() -> spec_fn((Seq<char>, Seq<char>)) -> Seq<u8> {
    |x: (Seq<char>, Seq<char>)| e_str(x.0) + e_str(x.1)
}

pub open spec fn e_export() -> spec_fn((Seq<char>, usize, usize)) -> Seq<u8> {
    |x: (Seq<char>, usize, usize)|
        e_str(x.0) + le32(wrap32(x.1 as int)) + le32(wrap32(x.2 as int))
}

pub open spec fn kind_code(k: RelocKind) -> u8 {
    match k {
        RelocKind::Abs64 => 0,
        RelocKind::Rel32Call => 1,
    }
}

pub open spec fn section_code(s: Section) -> u8 {
    match s {
        Section::Code => 0,
        Section::Data => 1,
    }
}

pub open spec fn e_reloc() -> spec_fn(Reloc) -> Seq<u8> {
    |r: Reloc|
        seq![kind_code(r.kind)] + (seq![section_code(r.section)] + (le64(r.site as u64) + (
        seq![sym_code(r.sym).0] + le64(sym_code(r.sym).1))))
}

/// The byte whose bits say which of `xs` are present, the first one lowest.
pub open spec fn flag_byte(xs: Seq<Option<usize>>) -> int
    decreases xs.len(),
{
    if xs.len() == 0 {
        0
    } else {
        (if xs[0] is Some {
            1int
        } else {
            0
        }) + 2 * flag_byte(xs.skip(1))
    }
}

/// The sizes that are present.
pub open spec fn e_options(xs: Seq<Option<usize>>) -> Seq<u8>
    decreases xs.len(),
{
    if xs.len() == 0 {
        Seq::empty()
    } else {
        e_options(xs.drop_last()) + match xs.last() {
            Some(x) => le64(x as u64),
            None => seq![],
        }
    }
}

#[verifier::opaque]
pub open spec fn e_flagged(xs: Seq<Option<usize>>) -> Seq<u8> {
    seq![flag_byte(xs) as u8] + e_options(xs)
}

pub open spec fn e_init(x: Option<usize>) -> Seq<u8> {
    match x {
        Some(i) => le32(wrap32(i as int)),
        None => le32(u32::MAX),
    }
}

/// Offsets of the runtime helpers, in the order of their flags.
pub open spec fn helpers_of(mc: McView) -> Seq<Option<usize>> {
    seq![
        mc.helper_itoa,
        mc.helper_itoa_err,
        mc.helper_scan_int,
        mc.helper_retain,
        mc.helper_release,
        mc.helper_alloc,
    ]
}

/// Offsets of the exception helpers, of their state and of the start-up
/// slot, in the order of their flags.
pub open spec fn exc_helpers_of(mc: McView) -> Seq<Option<usize>> {
    seq![
        mc.helper_exc_enter,
        mc.helper_exc_pop,
        mc.helper_exc_throw,
        mc.helper_exc_rethrow,
        mc.helper_exc_load,
        mc.helper_exc_clear,
        mc.exc_state_offset,
        mc.helper_argv,
    ]
}

#[verifier::opaque]
pub open spec fn e_tables(mc: McView) -> Seq<u8> {
    e_blob(mc.code) + (e_blob(mc.data) + (e_list(e_word(), mc.fn_bases) + (e_list(
        e_word(),
        mc.vtable_offsets,
    ) + (e_list(e_word(), mc.static_offsets) + (e_flagged(helpers_of(mc)) + e_flagged(
        exc_helpers_of(mc),
    ))))))
}

#[verifier::opaque]
pub open spec fn e_links(mc: McView) -> Seq<u8> {
    e_list(e_import(), mc.import_names) + (e_list(e_word(), mc.import_bases) + (e_list(
        e_export(),
        mc.exports,
    ) + (e_list(e_reloc(), mc.relocs) + le64(mc.heap_size))))
}

#[verifier::opaque]
pub open spec fn e_tail(mc: McView) -> Seq<u8> {
    e_list(e_text(), mc.vtable_names) + (e_list(e_text(), mc.static_names) + (e_list(
        e_truth(),
        mc.export_takes_receiver,
    ) + e_init(mc.init_fn)))
}

/// The buffer of `mc`.
pub open spec fn encoded(mc: McView) -> Seq<u8> {
    le32(MAGIC) + (e_tables(mc) + (e_links(mc) + e_tail(mc)))
}

/// `String::from_utf8_lossy`, whose result is given the name `utf8_lossy`.
/// Its documentation says that bytes which are UTF-8 come out as the text
/// that they encode; what takes the place of others is not stated.
#[verifier::external_body]
fn from_utf8_lossy(b: &[u8]) -> (s: String)
    ensures
        s@ == utf8_lossy(b@),
        valid_utf8(b@) ==> s@ == decode_utf8(b@),
{
    String::from_utf8_lossy(b).into_owned()
}

// ---- what was written reads back

proof fn lemma_p_u32(x: u32, rest: Seq<u8>)
    ensures
        p_u32(le32(x) + rest) == Ok::<(u32, Seq<u8>), Seq<char>>((x, rest)),
{
    let b = le32(x) + rest;
    assert(b.subrange(0, 4) =~= le32(x));
    lemma_u32_at(b, 0, x);
    assert(b.skip(4) =~= rest);
}

proof fn lemma_p_u64(x: u64, rest: Seq<u8>)
    ensures
        p_u64(le64(x) + rest) == Ok::<(u64, Seq<u8>), Seq<char>>((x, rest)),
{
    let b = le64(x) + rest;
    assert(b.subrange(0, 8) =~= le64(x));
    lemma_u64_at(b, 0, x);
    assert(b.skip(8) =~= rest);
}

proof fn lemma_p_word(x: usize, rest: Seq<u8>)
    ensures
        p_word(le64(x as u64) + rest) == Ok::<(usize, Seq<u8>), Seq<char>>((x, rest)),
{
    lemma_p_u64(x as u64, rest);
}

proof fn lemma_p_byte(x: u8, rest: Seq<u8>)
    ensures
        p_byte(seq![x] + rest) == Ok::<(u8, Seq<u8>), Seq<char>>((x, rest)),
{
    assert((seq![x] + rest).skip(1) =~= rest);
}

proof fn lemma_p_bytes(x: Seq<u8>, rest: Seq<u8>)
    ensures
        p_bytes(x + rest, x.len() as int) == Ok::<(Seq<u8>, Seq<u8>), Seq<char>>((x, rest)),
{
    assert((x + rest).take(x.len() as int) =~= x);
    assert((x + rest).skip(x.len() as int) =~= rest);
}

proof fn lemma_p_blob(x: Seq<u8>, rest: Seq<u8>)
    requires
        x.len() <= usize::MAX,
    ensures
        p_blob(e_blob(x) + rest) == Ok::<(Seq<u8>, Seq<u8>), Seq<char>>((x, rest)),
{
    reveal(p_blob);
    reveal(e_blob);
    let n = x.len() as usize;
    assert(n as u64 == x.len() as u64);
    assert(e_blob(x) + rest =~= le64(n as u64) + (x + rest));
    lemma_p_word(n, x + rest);
    lemma_p_bytes(x, rest);
}

/// Whether the length of `s` fits its field.
pub open spec fn str_fits(s: Seq<char>) -> bool {
    encode_utf8(s).len() <= u32::MAX
}

proof fn lemma_p_str(s: Seq<char>, rest: Seq<u8>)
    requires
        str_fits(s),
    ensures
        p_str(e_str(s) + rest) == Ok::<(Seq<char>, Seq<u8>), Seq<char>>((s, rest)),
{
    reveal(p_str);
    reveal(e_str);
    let b = encode_utf8(s);
    assert(e_str(s) + rest =~= le32(wrap32(b.len() as int)) + (b + rest));
    lemma_p_u32(wrap32(b.len() as int), b + rest);
    lemma_p_bytes(b, rest);
    vstd::utf8::encode_utf8_valid_utf8(s);
    vstd::utf8::encode_utf8_decode_utf8(s);
}

/// Whether `p` reads back what `e` writes of `x`.
pub open spec fn reads_back<T>(
    p: spec_fn(Seq<u8>) -> Parse<T>,
    e: spec_fn(T) -> Seq<u8>,
    x: T,
) -> bool {
    forall|rest: Seq<u8>| #[trigger] p(e(x) + rest) == Ok::<(T, Seq<u8>), Seq<char>>((x, rest))
}

proof fn lemma_p_many<T>(
    p: spec_fn(Seq<u8>) -> Parse<T>,
    e: spec_fn(T) -> Seq<u8>,
    xs: Seq<T>,
    rest: Seq<u8>,
)
    requires
        forall|k: int| 0 <= k < xs.len() ==> reads_back(p, e, #[trigger] xs[k]),
    ensures
        p_many(p, e_many(e, xs) + rest, xs.len()) == Ok::<(Seq<T>, Seq<u8>), Seq<char>>((xs, rest)),
    decreases xs.len(),
{
    if xs.len() == 0 {
        assert(e_many(e, xs) + rest =~= rest);
        assert(xs =~= Seq::empty());
    } else {
        let front = xs.drop_last();
        let x = xs.last();
        assert forall|k: int| 0 <= k < front.len() implies reads_back(p, e, #[trigger] front[k]) by {
            assert(front[k] == xs[k]);
        }
        assert(reads_back(p, e, xs[xs.len() - 1]));
        lemma_p_many(p, e, front, e(x) + rest);
        assert(e_many(e, xs) + rest =~= e_many(e, front) + (e(x) + rest));
        assert(p(e(x) + rest) == Ok::<(T, Seq<u8>), Seq<char>>((x, rest)));
        assert(front.push(x) =~= xs);
    }
}

proof fn lemma_p_list<T>(
    p: spec_fn(Seq<u8>) -> Parse<T>,
    e: spec_fn(T) -> Seq<u8>,
    xs: Seq<T>,
    rest: Seq<u8>,
)
    requires
        xs.len() <= u32::MAX,
        forall|k: int| 0 <= k < xs.len() ==> reads_back(p, e, #[trigger] xs[k]),
    ensures
        p_list(p, e_list(e, xs) + rest) == Ok::<(Seq<T>, Seq<u8>), Seq<char>>((xs, rest)),
        p_trailing(p, e_list(e, xs) + rest) == Ok::<(Seq<T>, Seq<u8>), Seq<char>>((xs, rest)),
{
    reveal(p_list);
    reveal(e_list);
    assert(e_list(e, xs) + rest =~= le32(wrap32(xs.len() as int)) + (e_many(e, xs) + rest));
    lemma_p_u32(wrap32(xs.len() as int), e_many(e, xs) + rest);
    lemma_p_many(p, e, xs, rest);
}

proof fn lemma_words(xs: Seq<usize>, rest: Seq<u8>)
    requires
        xs.len() <= u32::MAX,
    ensures
        p_list(word(), e_list(e_word(), xs) + rest) == Ok::<(Seq<usize>, Seq<u8>), Seq<char>>(
            (xs, rest),
        ),
{
    assert forall|k: int| 0 <= k < xs.len() implies reads_back(word(), e_word(), #[trigger] xs[k]) by {
        assert forall|rest: Seq<u8>| #[trigger]
            word()(e_word()(xs[k]) + rest) == Ok::<(usize, Seq<u8>), Seq<char>>((xs[k], rest)) by {
            lemma_p_word(xs[k], rest);
        }
    }
    lemma_p_list(word(), e_word(), xs, rest);
}

proof fn lemma_texts(xs: Seq<Seq<char>>, rest: Seq<u8>)
    requires
        xs.len() <= u32::MAX,
        forall|k: int| 0 <= k < xs.len() ==> str_fits(#[trigger] xs[k]),
    ensures
        p_trailing(text(), e_list(e_text(), xs) + rest) == Ok::<
            (Seq<Seq<char>>, Seq<u8>),
            Seq<char>,
        >((xs, rest)),
{
    assert forall|k: int| 0 <= k < xs.len() implies reads_back(text(), e_text(), #[trigger] xs[k]) by {
        assert forall|rest: Seq<u8>| #[trigger]
            text()(e_text()(xs[k]) + rest) == Ok::<(Seq<char>, Seq<u8>), Seq<char>>((xs[k], rest)) by {
            lemma_p_str(xs[k], rest);
        }
    }
    lemma_p_list(text(), e_text(), xs, rest);
}

proof fn lemma_truths(xs: Seq<bool>, rest: Seq<u8>)
    requires
        xs.len() <= u32::MAX,
    ensures
        p_trailing(truth(), e_list(e_truth(), xs) + rest) == Ok::<(Seq<bool>, Seq<u8>), Seq<char>>(
            (xs, rest),
        ),
{
    assert forall|k: int| 0 <= k < xs.len() implies reads_back(truth(), e_truth(), #[trigger] xs[k]) by {
        assert forall|rest: Seq<u8>| #[trigger]
            truth()(e_truth()(xs[k]) + rest) == Ok::<(bool, Seq<u8>), Seq<char>>((xs[k], rest)) by {
            lemma_p_byte(
                if xs[k] {
                    1
                } else {
                    0
                },
                rest,
            );
        }
    }
    lemma_p_list(truth(), e_truth(), xs, rest);
}

proof fn lemma_imports(xs: Seq<(Seq<char>, Seq<char>)>, rest: Seq<u8>)
    requires
        xs.len() <= u32::MAX,
        forall|k: int| 0 <= k < xs.len() ==> str_fits((#[trigger] xs[k]).0) && str_fits(xs[k].1),
    ensures
        p_list(import(), e_list(e_import(), xs) + rest) == Ok::<
            (Seq<(Seq<char>, Seq<char>)>, Seq<u8>),
            Seq<char>,
        >((xs, rest)),
{
    assert forall|k: int| 0 <= k < xs.len() implies reads_back(
        import(),
        e_import(),
        #[trigger] xs[k],
    ) by {
        assert forall|rest: Seq<u8>| #[trigger]
            import()(e_import()(xs[k]) + rest) == Ok::<
                ((Seq<char>, Seq<char>), Seq<u8>),
                Seq<char>,
            >((xs[k], rest)) by {
            let (lib, name) = xs[k];
            lemma_assoc(e_str(lib), e_str(name), rest);
            lemma_p_str(lib, e_str(name) + rest);
            lemma_p_str(name, rest);
        }
    }
    lemma_p_list(import(), e_import(), xs, rest);
}

/// Whether the fields of an export can hold it.
pub open spec fn export_fits(x: (Seq<char>, usize, usize)) -> bool {
    str_fits(x.0) && x.1 <= u32::MAX && x.2 <= u32::MAX
}

proof fn lemma_p_export(x: (Seq<char>, usize, usize), rest: Seq<u8>)
    requires
        export_fits(x),
    ensures
        p_export(e_export()(x) + rest) == Ok::<((Seq<char>, usize, usize), Seq<u8>), Seq<char>>(
            (x, rest),
        ),
{
    let (name, f, arity) = x;
    let a = le32(wrap32(f as int));
    let b = le32(wrap32(arity as int));
    lemma_assoc(e_str(name) + a, b, rest);
    lemma_assoc(e_str(name), a, b + rest);
    lemma_p_str(name, a + (b + rest));
    lemma_p_u32(wrap32(f as int), b + rest);
    lemma_p_u32(wrap32(arity as int), rest);
}

proof fn lemma_exports(xs: Seq<(Seq<char>, usize, usize)>, rest: Seq<u8>)
    requires
        xs.len() <= u32::MAX,
        forall|k: int| 0 <= k < xs.len() ==> export_fits(#[trigger] xs[k]),
    ensures
        p_list(export(), e_list(e_export(), xs) + rest) == Ok::<
            (Seq<(Seq<char>, usize, usize)>, Seq<u8>),
            Seq<char>,
        >((xs, rest)),
{
    assert forall|k: int| 0 <= k < xs.len() implies reads_back(
        export(),
        e_export(),
        #[trigger] xs[k],
    ) by {
        assert(export_fits(xs[k]));
        assert forall|rest: Seq<u8>| #[trigger]
            export()(e_export()(xs[k]) + rest) == Ok::<
                ((Seq<char>, usize, usize), Seq<u8>),
                Seq<char>,
            >((xs[k], rest)) by {
            lemma_p_export(xs[k], rest);
        }
    }
    lemma_p_list(export(), e_export(), xs, rest);
}

proof fn lemma_p_reloc(r: Reloc, rest: Seq<u8>)
    ensures
        p_reloc(e_reloc()(r) + rest) == Ok::<(Reloc, Seq<u8>), Seq<char>>((r, rest)),
{
    let (tag, arg) = sym_code(r.sym);
    let a = le64(arg) + rest;
    let b = seq![tag] + a;
    let c = le64(r.site as u64) + b;
    let d = seq![section_code(r.section)] + c;
    let e0 = le64(arg);
    let e1 = seq![tag] + e0;
    let e2 = le64(r.site as u64) + e1;
    let e3 = seq![section_code(r.section)] + e2;
    lemma_assoc(seq![kind_code(r.kind)], e3, rest);
    lemma_assoc(seq![section_code(r.section)], e2, rest);
    lemma_assoc(le64(r.site as u64), e1, rest);
    lemma_assoc(seq![tag], e0, rest);
    lemma_p_byte(kind_code(r.kind), d);
    lemma_p_byte(section_code(r.section), c);
    lemma_p_word(r.site, b);
    lemma_p_byte(tag, a);
    lemma_p_u64(arg, rest);
    assert(sym_of(tag, arg) == Some(r.sym));
}

proof fn lemma_relocs(xs: Seq<Reloc>, rest: Seq<u8>)
    requires
        xs.len() <= u32::MAX,
    ensures
        p_list(reloc(), e_list(e_reloc(), xs) + rest) == Ok::<(Seq<Reloc>, Seq<u8>), Seq<char>>(
            (xs, rest),
        ),
{
    assert forall|k: int| 0 <= k < xs.len() implies reads_back(reloc(), e_reloc(), #[trigger] xs[k]) by {
        assert forall|rest: Seq<u8>| #[trigger]
            reloc()(e_reloc()(xs[k]) + rest) == Ok::<(Reloc, Seq<u8>), Seq<char>>((xs[k], rest)) by {
            lemma_p_reloc(xs[k], rest);
        }
    }
    lemma_p_list(reloc(), e_reloc(), xs, rest);
}

proof fn lemma_flag_byte(xs: Seq<Option<usize>>)
    requires
        xs.len() <= 8,
    ensures
        0 <= flag_byte(xs) < 256,
        xs.len() <= 7 ==> flag_byte(xs) < 128,
        xs.len() <= 6 ==> flag_byte(xs) < 64,
        xs.len() <= 5 ==> flag_byte(xs) < 32,
        xs.len() <= 4 ==> flag_byte(xs) < 16,
        xs.len() <= 3 ==> flag_byte(xs) < 8,
        xs.len() <= 2 ==> flag_byte(xs) < 4,
        xs.len() <= 1 ==> flag_byte(xs) < 2,
        xs.len() == 0 ==> flag_byte(xs) == 0,
    decreases xs.len(),
{
    if xs.len() > 0 {
        lemma_flag_byte(xs.skip(1));
    }
}

proof fn lemma_flag(xs: Seq<Option<usize>>, k: int)
    requires
        xs.len() <= 8,
        0 <= k < xs.len(),
    ensures
        flag(flag_byte(xs) as u8, k) == (xs[k] is Some),
    decreases k,
{
    lemma_flag_byte(xs);
    lemma_flag_byte(xs.skip(1));
    if k > 0 {
        lemma_flag(xs.skip(1), k - 1);
        assert(flag_byte(xs) as u8 / 2 == flag_byte(xs.skip(1)) as u8);
    }
}

proof fn lemma_options(xs: Seq<Option<usize>>, n: int, flags: u8, rest: Seq<u8>)
    requires
        0 <= n <= xs.len() <= 8,
        flags == flag_byte(xs) as u8,
    ensures
        p_options(e_options(xs.take(n)) + rest, flags, n as nat) == Ok::<
            (Seq<Option<usize>>, Seq<u8>),
            Seq<char>,
        >((xs.take(n), rest)),
    decreases n,
{
    let b = e_options(xs.take(n)) + rest;
    if n == 0 {
        assert(b =~= rest);
        assert(xs.take(0) =~= Seq::empty());
    } else {
        let front = xs.take(n - 1);
        let x = xs[n - 1];
        assert(xs.take(n).drop_last() =~= front);
        lemma_flag(xs, n - 1);
        let mid = match x {
            Some(v) => le64(v as u64),
            None => seq![],
        };
        assert(b =~= e_options(front) + (mid + rest));
        lemma_options(xs, n - 1, flags, mid + rest);
        match x {
            Some(v) => lemma_p_word(v, rest),
            None => {
                assert(mid + rest =~= rest);
            },
        }
        assert(front.push(x) =~= xs.take(n));
    }
}

proof fn lemma_flagged(xs: Seq<Option<usize>>, rest: Seq<u8>)
    requires
        xs.len() <= 8,
    ensures
        p_flagged(e_flagged(xs) + rest, xs.len()) == Ok::<
            (Seq<Option<usize>>, Seq<u8>),
            Seq<char>,
        >((xs, rest)),
{
    reveal(p_flagged);
    reveal(e_flagged);
    let flags = flag_byte(xs) as u8;
    assert(e_flagged(xs) + rest =~= seq![flags] + (e_options(xs) + rest));
    lemma_p_byte(flags, e_options(xs) + rest);
    lemma_options(xs, xs.len() as int, flags, rest);
    assert(xs.take(xs.len() as int) =~= xs);
}

proof fn lemma_p_init(x: Option<usize>, rest: Seq<u8>)
    requires
        x matches Some(i) ==> i < u32::MAX,
    ensures
        p_init(e_init(x) + rest) == Ok::<(Option<usize>, Seq<u8>), Seq<char>>((x, rest)),
{
    match x {
        Some(i) => lemma_p_u32(wrap32(i as int), rest),
        None => lemma_p_u32(u32::MAX, rest),
    }
}

/// Whether every count, length, index and arity of `mc` fits its field of
/// the format.
pub open spec fn serializable(mc: McView) -> bool {
    &&& mc.code.len() <= usize::MAX
    &&& mc.data.len() <= usize::MAX
    &&& mc.fn_bases.len() <= u32::MAX
    &&& mc.vtable_offsets.len() <= u32::MAX
    &&& mc.static_offsets.len() <= u32::MAX
    &&& mc.import_names.len() <= u32::MAX
    &&& mc.import_bases.len() <= u32::MAX
    &&& mc.exports.len() <= u32::MAX
    &&& mc.relocs.len() <= u32::MAX
    &&& mc.vtable_names.len() <= u32::MAX
    &&& mc.static_names.len() <= u32::MAX
    &&& mc.export_takes_receiver.len() <= u32::MAX
    &&& forall|k: int|
        0 <= k < mc.import_names.len() ==> str_fits((#[trigger] mc.import_names[k]).0) && str_fits(
            mc.import_names[k].1,
        )
    &&& forall|k: int| 0 <= k < mc.exports.len() ==> export_fits(#[trigger] mc.exports[k])
    &&& forall|k: int| 0 <= k < mc.vtable_names.len() ==> str_fits(#[trigger] mc.vtable_names[k])
    &&& forall|k: int| 0 <= k < mc.static_names.len() ==> str_fits(#[trigger] mc.static_names[k])
    &&& mc.init_fn matches Some(i) ==> i < u32::MAX
}

/// `mc` without the sections that may be missing.
pub open spec fn tables_of(mc: McView) -> Tables {
    Tables {
        code: mc.code,
        data: mc.data,
        fn_bases: mc.fn_bases,
        vtable_offsets: mc.vtable_offsets,
        static_offsets: mc.static_offsets,
        helpers: helpers_of(mc),
        exc_helpers: exc_helpers_of(mc),
    }
}

pub open spec fn links_of(mc: McView) -> Links {
    Links {
        import_names: mc.import_names,
        import_bases: mc.import_bases,
        exports: mc.exports,
        relocs: mc.relocs,
        heap_size: mc.heap_size,
    }
}

pub open spec fn tail_of(mc: McView) -> Tail {
    Tail {
        vtable_names: mc.vtable_names,
        static_names: mc.static_names,
        export_takes_receiver: mc.export_takes_receiver,
        init_fn: mc.init_fn,
    }
}

proof fn lemma_tables(mc: McView, rest: Seq<u8>)
    requires
        serializable(mc),
    ensures
        p_tables(e_tables(mc) + rest) == Ok::<(Tables, Seq<u8>), Seq<char>>((tables_of(mc), rest)),
{
    reveal(p_tables);
    reveal(e_tables);
    let r7 = rest;
    let r6 = e_flagged(exc_helpers_of(mc)) + r7;
    let r5 = e_flagged(helpers_of(mc)) + r6;
    let r4 = e_list(e_word(), mc.static_offsets) + r5;
    let r3 = e_list(e_word(), mc.vtable_offsets) + r4;
    let r2 = e_list(e_word(), mc.fn_bases) + r3;
    let r1 = e_blob(mc.data) + r2;
    let e6 = e_flagged(exc_helpers_of(mc));
    let e5 = e_flagged(helpers_of(mc)) + e6;
    let e4 = e_list(e_word(), mc.static_offsets) + e5;
    let e3 = e_list(e_word(), mc.vtable_offsets) + e4;
    let e2 = e_list(e_word(), mc.fn_bases) + e3;
    let e1 = e_blob(mc.data) + e2;
    lemma_assoc(e_blob(mc.code), e1, rest);
    lemma_assoc(e_blob(mc.data), e2, rest);
    lemma_assoc(e_list(e_word(), mc.fn_bases), e3, rest);
    lemma_assoc(e_list(e_word(), mc.vtable_offsets), e4, rest);
    lemma_assoc(e_list(e_word(), mc.static_offsets), e5, rest);
    lemma_assoc(e_flagged(helpers_of(mc)), e6, rest);
    lemma_p_blob(mc.code, r1);
    lemma_p_blob(mc.data, r2);
    lemma_words(mc.fn_bases, r3);
    lemma_words(mc.vtable_offsets, r4);
    lemma_words(mc.static_offsets, r5);
    lemma_flagged(helpers_of(mc), r6);
    lemma_flagged(exc_helpers_of(mc), r7);
}

proof fn lemma_links(mc: McView, rest: Seq<u8>)
    requires
        serializable(mc),
    ensures
        p_links(e_links(mc) + rest) == Ok::<(Links, Seq<u8>), Seq<char>>((links_of(mc), rest)),
{
    reveal(p_links);
    reveal(e_links);
    let r4 = le64(mc.heap_size) + rest;
    let r3 = e_list(e_reloc(), mc.relocs) + r4;
    let r2 = e_list(e_export(), mc.exports) + r3;
    let r1 = e_list(e_word(), mc.import_bases) + r2;
    let e4 = le64(mc.heap_size);
    let e3 = e_list(e_reloc(), mc.relocs) + e4;
    let e2 = e_list(e_export(), mc.exports) + e3;
    let e1 = e_list(e_word(), mc.import_bases) + e2;
    lemma_assoc(e_list(e_import(), mc.import_names), e1, rest);
    lemma_assoc(e_list(e_word(), mc.import_bases), e2, rest);
    lemma_assoc(e_list(e_export(), mc.exports), e3, rest);
    lemma_assoc(e_list(e_reloc(), mc.relocs), e4, rest);
    lemma_imports(mc.import_names, r1);
    lemma_words(mc.import_bases, r2);
    lemma_exports(mc.exports, r3);
    lemma_relocs(mc.relocs, r4);
    lemma_p_u64(mc.heap_size, rest);
}

proof fn lemma_tail(mc: McView, rest: Seq<u8>)
    requires
        serializable(mc),
    ensures
        p_tail(e_tail(mc) + rest) == Ok::<(Tail, Seq<u8>), Seq<char>>((tail_of(mc), rest)),
{
    reveal(p_tail);
    reveal(e_tail);
    let e3 = e_init(mc.init_fn);
    let e2 = e_list(e_truth(), mc.export_takes_receiver) + e3;
    let e1 = e_list(e_text(), mc.static_names) + e2;
    let r3 = e3 + rest;
    let r2 = e_list(e_truth(), mc.export_takes_receiver) + r3;
    let r1 = e_list(e_text(), mc.static_names) + r2;
    lemma_assoc(e_list(e_text(), mc.vtable_names), e1, rest);
    lemma_assoc(e_list(e_text(), mc.static_names), e2, rest);
    lemma_assoc(e_list(e_truth(), mc.export_takes_receiver), e3, rest);
    lemma_texts(mc.vtable_names, r1);
    lemma_texts(mc.static_names, r2);
    lemma_truths(mc.export_takes_receiver, r3);
    lemma_p_init(mc.init_fn, rest);
}

/// What a buffer decodes to whose front is that of `mc` and whose back is
/// `tail`.
proof fn lemma_decoded(mc: McView, tail: Seq<u8>)
    requires
        serializable(mc),
    ensures
        decoded(le32(MAGIC) + (e_tables(mc) + (e_links(mc) + tail))) == (match p_tail(tail) {
            Ok((e, _)) => Ok::<McView, Seq<char>>(assemble(tables_of(mc), links_of(mc), e)),
            Err(m) => Err(m),
        }),
{
    let rest = e_tables(mc) + (e_links(mc) + tail);
    let b = le32(MAGIC) + rest;
    lemma_p_u32(MAGIC, rest);
    assert(b.skip(4) =~= rest);
    lemma_tables(mc, e_links(mc) + tail);
    lemma_links(mc, tail);
}

/// Decoding gives back what was encoded, but for the load-time addresses,
/// which are left out.
pub proof fn decoding_undoes_encoding(mc: McView)
    requires
        serializable(mc),
    ensures
        decoded(encoded(mc)) == Ok::<McView, Seq<char>>(
            McView { import_abs: Seq::empty(), ..mc },
        ),
{
    lemma_decoded(mc, e_tail(mc));
    lemma_tail(mc, Seq::empty());
    assert(e_tail(mc) + Seq::<u8>::empty() =~= e_tail(mc));
}

/// Bytes behind the last section are ignored.
pub proof fn trailing_bytes_are_ignored(mc: McView, more: Seq<u8>)
    requires
        serializable(mc),
    ensures
        decoded(encoded(mc) + more) == decoded(encoded(mc)),
{
    decoding_undoes_encoding(mc);
    lemma_decoded(mc, e_tail(mc) + more);
    lemma_tail(mc, more);
    assert(encoded(mc) + more =~= le32(MAGIC) + (e_tables(mc) + (e_links(mc) + (e_tail(mc) + more))));
}

/// Encoding again what was decoded gives the same bytes.
pub proof fn encoding_is_stable(mc: McView)
    requires
        serializable(mc),
    ensures
        decoded(encoded(mc)) matches Ok(back) && encoded(back) == encoded(mc),
{
    reveal(e_tables);
    reveal(e_links);
    reveal(e_tail);
    decoding_undoes_encoding(mc);
    let back = McView { import_abs: Seq::empty(), ..mc };
    assert(e_tables(back) == e_tables(mc));
    assert(e_links(back) == e_links(mc));
    assert(e_tail(back) == e_tail(mc));
}

// ---- buffers that stop early

/// The first `n` of the sections that may be missing.
pub open spec fn tail_sections(mc: McView, n: int) -> Seq<u8> {
    let a = e_list(e_text(), mc.vtable_names);
    let b = e_list(e_text(), mc.static_names);
    let c = e_list(e_truth(), mc.export_takes_receiver);
    if n <= 0 {
        seq![]
    } else if n == 1 {
        a
    } else if n == 2 {
        a + b
    } else if n == 3 {
        a + (b + c)
    } else {
        a + (b + (c + e_init(mc.init_fn)))
    }
}

/// `mc` with nothing in the sections behind the first `n` of those that may
/// be missing.
pub open spec fn without_tail(mc: McView, n: int) -> McView {
    McView {
        vtable_names: if n >= 1 {
            mc.vtable_names
        } else {
            Seq::empty()
        },
        static_names: if n >= 2 {
            mc.static_names
        } else {
            Seq::empty()
        },
        export_takes_receiver: if n >= 3 {
            mc.export_takes_receiver
        } else {
            Seq::empty()
        },
        init_fn: if n >= 4 {
            mc.init_fn
        } else {
            None
        },
        import_abs: Seq::empty(),
        ..mc
    }
}

/// The buffer of `mc` with the first `n` of the sections that may be missing.
pub open spec fn shortened(mc: McView, n: int) -> Seq<u8> {
    le32(MAGIC) + (e_tables(mc) + (e_links(mc) + tail_sections(mc, n)))
}

/// A buffer that ends behind one of its sections from the heap size on
/// decodes, with nothing in the missing ones.
pub proof fn missing_sections_are_empty(mc: McView, n: int)
    requires
        serializable(mc),
        0 <= n <= 4,
    ensures
        decoded(shortened(mc, n)) == Ok::<McView, Seq<char>>(without_tail(mc, n)),
        shortened(mc, 4) == encoded(mc),
{
    reveal(p_tail);
    reveal(e_tail);
    let a = e_list(e_text(), mc.vtable_names);
    let b = e_list(e_text(), mc.static_names);
    let c = e_list(e_truth(), mc.export_takes_receiver);
    let d = e_init(mc.init_fn);
    let none = Seq::<u8>::empty();
    lemma_decoded(mc, tail_sections(mc, n));
    if n >= 4 {
        lemma_tail(mc, none);
        assert(e_tail(mc) + none =~= e_tail(mc));
    } else if n == 3 {
        lemma_texts(mc.vtable_names, b + c);
        lemma_texts(mc.static_names, c);
        assert(c + none =~= c);
        lemma_truths(mc.export_takes_receiver, none);
    } else if n == 2 {
        lemma_texts(mc.vtable_names, b);
        assert(b + none =~= b);
        lemma_texts(mc.static_names, none);
    } else if n == 1 {
        assert(a + none =~= a);
        lemma_texts(mc.vtable_names, none);
    }
}

/// Whether `t` is the front of `s` and not all of it.
pub open spec fn short(t: Seq<u8>, s: Seq<u8>) -> bool {
    t.len() < s.len() && t == s.take(t.len() as int)
}

/// What is cut from two pieces is cut from the first, or is the first and
/// what is cut from the second.
proof fn lemma_cut(t: Seq<u8>, a: Seq<u8>, b: Seq<u8>) -> (u: Seq<u8>)
    requires
        short(t, a + b),
    ensures
        !short(t, a) ==> t == a + u && short(u, b),
{
    if t.len() < a.len() {
        assert(t =~= a.take(t.len() as int));
        t
    } else {
        let u = t.skip(a.len() as int);
        assert forall|i: int| 0 <= i < t.len() implies t[i] == (a + b)[i] by {
            assert(t[i] == (a + b).take(t.len() as int)[i]);
        }
        assert(t =~= a + u);
        assert(u =~= b.take(u.len() as int));
        u
    }
}

proof fn lemma_short_word(t: Seq<u8>, x: u64)
    requires
        short(t, le64(x)),
    ensures
        p_u64(t) is Err,
        p_word(t) is Err,
{
}

proof fn lemma_short_blob(t: Seq<u8>, b: Seq<u8>)
    requires
        b.len() <= usize::MAX,
        short(t, e_blob(b)),
    ensures
        p_blob(t) is Err,
{
    reveal(p_blob);
    reveal(e_blob);
    let n = b.len() as usize;
    let u = lemma_cut(t, le64(n as u64), b);
    if short(t, le64(n as u64)) {
        lemma_short_word(t, n as u64);
    } else {
        lemma_p_word(n, u);
    }
}

proof fn lemma_short_str(t: Seq<u8>, s: Seq<char>)
    requires
        str_fits(s),
        short(t, e_str(s)),
    ensures
        p_str(t) is Err,
{
    reveal(p_str);
    reveal(e_str);
    let b = encode_utf8(s);
    let n = wrap32(b.len() as int);
    let u = lemma_cut(t, le32(n), b);
    if !short(t, le32(n)) {
        lemma_p_u32(n, u);
    }
}

/// Whether `p` fails on what is cut short of the encoding of `x`.
pub open spec fn rejects_short<T>(
    p: spec_fn(Seq<u8>) -> Parse<T>,
    e: spec_fn(T) -> Seq<u8>,
    x: T,
) -> bool {
    forall|t: Seq<u8>| short(t, e(x)) ==> #[trigger] p(t) is Err
}

proof fn lemma_short_many<T>(
    p: spec_fn(Seq<u8>) -> Parse<T>,
    e: spec_fn(T) -> Seq<u8>,
    xs: Seq<T>,
    t: Seq<u8>,
)
    requires
        forall|k: int| 0 <= k < xs.len() ==> reads_back(p, e, #[trigger] xs[k]),
        forall|k: int| 0 <= k < xs.len() ==> rejects_short(p, e, #[trigger] xs[k]),
        short(t, e_many(e, xs)),
    ensures
        p_many(p, t, xs.len()) is Err,
    decreases xs.len(),
{
    if xs.len() > 0 {
        let front = xs.drop_last();
        let x = xs.last();
        assert forall|k: int| 0 <= k < front.len() implies reads_back(p, e, #[trigger] front[k])
            && rejects_short(p, e, front[k]) by {
            assert(front[k] == xs[k]);
        }
        let u = lemma_cut(t, e_many(e, front), e(x));
        if short(t, e_many(e, front)) {
            lemma_short_many(p, e, front, t);
        } else {
            lemma_p_many(p, e, front, u);
            assert(rejects_short(p, e, xs[xs.len() - 1]));
            assert(p(u) is Err);
        }
    }
}

proof fn lemma_short_list<T>(
    p: spec_fn(Seq<u8>) -> Parse<T>,
    e: spec_fn(T) -> Seq<u8>,
    xs: Seq<T>,
    t: Seq<u8>,
)
    requires
        xs.len() <= u32::MAX,
        forall|k: int| 0 <= k < xs.len() ==> reads_back(p, e, #[trigger] xs[k]),
        forall|k: int| 0 <= k < xs.len() ==> rejects_short(p, e, #[trigger] xs[k]),
        short(t, e_list(e, xs)),
    ensures
        p_list(p, t) is Err,
        t.len() > 0 ==> p_trailing(p, t) is Err,
{
    reveal(p_list);
    reveal(e_list);
    let n = wrap32(xs.len() as int);
    let u = lemma_cut(t, le32(n), e_many(e, xs));
    if !short(t, le32(n)) {
        lemma_p_u32(n, u);
        lemma_short_many(p, e, xs, u);
    }
}

proof fn lemma_short_words(t: Seq<u8>, xs: Seq<usize>)
    requires
        xs.len() <= u32::MAX,
        short(t, e_list(e_word(), xs)),
    ensures
        p_list(word(), t) is Err,
{
    assert forall|k: int| 0 <= k < xs.len() implies reads_back(word(), e_word(), #[trigger] xs[k])
        && rejects_short(word(), e_word(), xs[k]) by {
        assert forall|rest: Seq<u8>| #[trigger]
            word()(e_word()(xs[k]) + rest) == Ok::<(usize, Seq<u8>), Seq<char>>((xs[k], rest)) by {
            lemma_p_word(xs[k], rest);
        }
        assert forall|t: Seq<u8>| short(t, e_word()(xs[k])) implies #[trigger] word()(t) is Err by {
            lemma_short_word(t, xs[k] as u64);
        }
    }
    lemma_short_list(word(), e_word(), xs, t);
}

proof fn lemma_short_texts(t: Seq<u8>, xs: Seq<Seq<char>>)
    requires
        xs.len() <= u32::MAX,
        forall|k: int| 0 <= k < xs.len() ==> str_fits(#[trigger] xs[k]),
        t.len() > 0,
        short(t, e_list(e_text(), xs)),
    ensures
        p_trailing(text(), t) is Err,
{
    assert forall|k: int| 0 <= k < xs.len() implies reads_back(text(), e_text(), #[trigger] xs[k])
        && rejects_short(text(), e_text(), xs[k]) by {
        assert forall|rest: Seq<u8>| #[trigger]
            text()(e_text()(xs[k]) + rest) == Ok::<(Seq<char>, Seq<u8>), Seq<char>>((xs[k], rest)) by {
            lemma_p_str(xs[k], rest);
        }
        assert forall|t: Seq<u8>| short(t, e_text()(xs[k])) implies #[trigger] text()(t) is Err by {
            lemma_short_str(t, xs[k]);
        }
    }
    lemma_short_list(text(), e_text(), xs, t);
}

proof fn lemma_short_truths(t: Seq<u8>, xs: Seq<bool>)
    requires
        xs.len() <= u32::MAX,
        t.len() > 0,
        short(t, e_list(e_truth(), xs)),
    ensures
        p_trailing(truth(), t) is Err,
{
    assert forall|k: int| 0 <= k < xs.len() implies reads_back(truth(), e_truth(), #[trigger] xs[k])
        && rejects_short(truth(), e_truth(), xs[k]) by {
        assert forall|rest: Seq<u8>| #[trigger]
            truth()(e_truth()(xs[k]) + rest) == Ok::<(bool, Seq<u8>), Seq<char>>((xs[k], rest)) by {
            lemma_p_byte(
                if xs[k] {
                    1
                } else {
                    0
                },
                rest,
            );
        }
    }
    lemma_short_list(truth(), e_truth(), xs, t);
}

proof fn lemma_short_imports(t: Seq<u8>, xs: Seq<(Seq<char>, Seq<char>)>)
    requires
        xs.len() <= u32::MAX,
        forall|k: int| 0 <= k < xs.len() ==> str_fits((#[trigger] xs[k]).0) && str_fits(xs[k].1),
        short(t, e_list(e_import(), xs)),
    ensures
        p_list(import(), t) is Err,
{
    assert forall|k: int| 0 <= k < xs.len() implies reads_back(
        import(),
        e_import(),
        #[trigger] xs[k],
    ) && rejects_short(import(), e_import(), xs[k]) by {
        let (lib, name) = xs[k];
        assert forall|rest: Seq<u8>| #[trigger]
            import()(e_import()(xs[k]) + rest) == Ok::<
                ((Seq<char>, Seq<char>), Seq<u8>),
                Seq<char>,
            >((xs[k], rest)) by {
            lemma_assoc(e_str(lib), e_str(name), rest);
            lemma_p_str(lib, e_str(name) + rest);
            lemma_p_str(name, rest);
        }
        assert forall|t: Seq<u8>| short(t, e_import()(xs[k])) implies #[trigger] import()(t) is Err by {
            let u = lemma_cut(t, e_str(lib), e_str(name));
            if short(t, e_str(lib)) {
                lemma_short_str(t, lib);
            } else {
                lemma_p_str(lib, u);
                lemma_short_str(u, name);
            }
        }
    }
    lemma_short_list(import(), e_import(), xs, t);
}

/// The two numbers of an export, cut short.
proof fn lemma_short_pair(t: Seq<u8>, x: u32, y: u32)
    requires
        short(t, le32(x) + le32(y)),
    ensures
        match p_u32(t) {
            Ok((_, rest)) => p_u32(rest) is Err,
            Err(_) => true,
        },
{
    assert(t.len() < 8);
}

proof fn lemma_short_export(t: Seq<u8>, x: (Seq<char>, usize, usize))
    requires
        export_fits(x),
        short(t, e_export()(x)),
    ensures
        p_export(t) is Err,
{
    let (name, f, arity) = x;
    let head = e_str(name);
    let a = le32(wrap32(f as int));
    let b = le32(wrap32(arity as int));
    lemma_assoc(head, a, b);
    assert(e_export()(x) == head + (a + b));
    let u = lemma_cut(t, head, a + b);
    if short(t, head) {
        lemma_short_str(t, name);
    } else {
        lemma_p_str(name, u);
        lemma_short_pair(u, wrap32(f as int), wrap32(arity as int));
    }
}

proof fn lemma_short_exports(t: Seq<u8>, xs: Seq<(Seq<char>, usize, usize)>)
    requires
        xs.len() <= u32::MAX,
        forall|k: int| 0 <= k < xs.len() ==> export_fits(#[trigger] xs[k]),
        short(t, e_list(e_export(), xs)),
    ensures
        p_list(export(), t) is Err,
{
    assert forall|k: int| 0 <= k < xs.len() implies reads_back(
        export(),
        e_export(),
        #[trigger] xs[k],
    ) && rejects_short(export(), e_export(), xs[k]) by {
        assert(export_fits(xs[k]));
        assert forall|rest: Seq<u8>| #[trigger]
            export()(e_export()(xs[k]) + rest) == Ok::<
                ((Seq<char>, usize, usize), Seq<u8>),
                Seq<char>,
            >((xs[k], rest)) by {
            lemma_p_export(xs[k], rest);
        }
        assert forall|t: Seq<u8>| short(t, e_export()(xs[k])) implies #[trigger] export()(t) is Err by {
            lemma_short_export(t, xs[k]);
        }
    }
    lemma_short_list(export(), e_export(), xs, t);
}

proof fn lemma_short_reloc(t: Seq<u8>, r: Reloc)
    requires
        short(t, e_reloc()(r)),
    ensures
        p_reloc(t) is Err,
{
    let (tag, arg) = sym_code(r.sym);
    let k = kind_code(r.kind);
    let c = section_code(r.section);
    let e0 = le64(arg);
    let e1 = seq![tag] + e0;
    let e2 = le64(r.site as u64) + e1;
    let e3 = seq![c] + e2;
    let t1 = lemma_cut(t, seq![k], e3);
    if !short(t, seq![k]) {
        lemma_p_byte(k, t1);
        let t2 = lemma_cut(t1, seq![c], e2);
        if !short(t1, seq![c]) {
            lemma_p_byte(c, t2);
            let t3 = lemma_cut(t2, le64(r.site as u64), e1);
            if short(t2, le64(r.site as u64)) {
                lemma_short_word(t2, r.site as u64);
            } else {
                lemma_p_word(r.site, t3);
                let t4 = lemma_cut(t3, seq![tag], e0);
                if !short(t3, seq![tag]) {
                    lemma_p_byte(tag, t4);
                    lemma_short_word(t4, arg);
                }
            }
        }
    }
}

proof fn lemma_short_relocs(t: Seq<u8>, xs: Seq<Reloc>)
    requires
        xs.len() <= u32::MAX,
        short(t, e_list(e_reloc(), xs)),
    ensures
        p_list(reloc(), t) is Err,
{
    assert forall|k: int| 0 <= k < xs.len() implies reads_back(reloc(), e_reloc(), #[trigger] xs[k])
        && rejects_short(reloc(), e_reloc(), xs[k]) by {
        assert forall|rest: Seq<u8>| #[trigger]
            reloc()(e_reloc()(xs[k]) + rest) == Ok::<(Reloc, Seq<u8>), Seq<char>>((xs[k], rest)) by {
            lemma_p_reloc(xs[k], rest);
        }
        assert forall|t: Seq<u8>| short(t, e_reloc()(xs[k])) implies #[trigger] reloc()(t) is Err by {
            lemma_short_reloc(t, xs[k]);
        }
    }
    lemma_short_list(reloc(), e_reloc(), xs, t);
}

proof fn lemma_short_options(t: Seq<u8>, xs: Seq<Option<usize>>, n: int, flags: u8)
    requires
        0 <= n <= xs.len() <= 8,
        flags == flag_byte(xs) as u8,
        short(t, e_options(xs.take(n))),
    ensures
        p_options(t, flags, n as nat) is Err,
    decreases n,
{
    if n > 0 {
        let front = xs.take(n - 1);
        assert(xs.take(n).drop_last() =~= front);
        lemma_flag(xs, n - 1);
        let mid = match xs[n - 1] {
            Some(v) => le64(v as u64),
            None => seq![],
        };
        let u = lemma_cut(t, e_options(front), mid);
        if short(t, e_options(front)) {
            lemma_short_options(t, xs, n - 1, flags);
        } else {
            lemma_options(xs, n - 1, flags, u);
            match xs[n - 1] {
                Some(v) => lemma_short_word(u, v as u64),
                None => {},
            }
        }
    }
}

proof fn lemma_short_flagged(t: Seq<u8>, xs: Seq<Option<usize>>)
    requires
        xs.len() <= 8,
        short(t, e_flagged(xs)),
    ensures
        p_flagged(t, xs.len()) is Err,
{
    reveal(p_flagged);
    reveal(e_flagged);
    let flags = flag_byte(xs) as u8;
    let u = lemma_cut(t, seq![flags], e_options(xs));
    if !short(t, seq![flags]) {
        lemma_p_byte(flags, u);
        assert(xs.take(xs.len() as int) =~= xs);
        lemma_short_options(u, xs, xs.len() as int, flags);
    }
}

proof fn lemma_short_tables(t: Seq<u8>, mc: McView)
    requires
        serializable(mc),
        short(t, e_tables(mc)),
    ensures
        p_tables(t) is Err,
{
    reveal(p_tables);
    reveal(e_tables);
    let a = e_blob(mc.code);
    let b = e_blob(mc.data);
    let c = e_list(e_word(), mc.fn_bases);
    let d = e_list(e_word(), mc.vtable_offsets);
    let e = e_list(e_word(), mc.static_offsets);
    let f = e_flagged(helpers_of(mc));
    let h = e_flagged(exc_helpers_of(mc));
    let t1 = lemma_cut(t, a, b + (c + (d + (e + (f + h)))));
    if short(t, a) {
        lemma_short_blob(t, mc.code);
    } else {
        lemma_p_blob(mc.code, t1);
        let t2 = lemma_cut(t1, b, c + (d + (e + (f + h))));
        if short(t1, b) {
            lemma_short_blob(t1, mc.data);
        } else {
            lemma_p_blob(mc.data, t2);
            let t3 = lemma_cut(t2, c, d + (e + (f + h)));
            if short(t2, c) {
                lemma_short_words(t2, mc.fn_bases);
            } else {
                lemma_words(mc.fn_bases, t3);
                let t4 = lemma_cut(t3, d, e + (f + h));
                if short(t3, d) {
                    lemma_short_words(t3, mc.vtable_offsets);
                } else {
                    lemma_words(mc.vtable_offsets, t4);
                    let t5 = lemma_cut(t4, e, f + h);
                    if short(t4, e) {
                        lemma_short_words(t4, mc.static_offsets);
                    } else {
                        lemma_words(mc.static_offsets, t5);
                        let t6 = lemma_cut(t5, f, h);
                        if short(t5, f) {
                            lemma_short_flagged(t5, helpers_of(mc));
                        } else {
                            lemma_flagged(helpers_of(mc), t6);
                            lemma_short_flagged(t6, exc_helpers_of(mc));
                        }
                    }
                }
            }
        }
    }
}

proof fn lemma_short_links(t: Seq<u8>, mc: McView)
    requires
        serializable(mc),
        short(t, e_links(mc)),
    ensures
        p_links(t) is Err,
{
    reveal(p_links);
    reveal(e_links);
    let a = e_list(e_import(), mc.import_names);
    let b = e_list(e_word(), mc.import_bases);
    let c = e_list(e_export(), mc.exports);
    let d = e_list(e_reloc(), mc.relocs);
    let e = le64(mc.heap_size);
    let t1 = lemma_cut(t, a, b + (c + (d + e)));
    if short(t, a) {
        lemma_short_imports(t, mc.import_names);
    } else {
        lemma_imports(mc.import_names, t1);
        let t2 = lemma_cut(t1, b, c + (d + e));
        if short(t1, b) {
            lemma_short_words(t1, mc.import_bases);
        } else {
            lemma_words(mc.import_bases, t2);
            let t3 = lemma_cut(t2, c, d + e);
            if short(t2, c) {
                lemma_short_exports(t2, mc.exports);
            } else {
                lemma_exports(mc.exports, t3);
                let t4 = lemma_cut(t3, d, e);
                if short(t3, d) {
                    lemma_short_relocs(t3, mc.relocs);
                } else {
                    lemma_relocs(mc.relocs, t4);
                    lemma_short_word(t4, mc.heap_size);
                }
            }
        }
    }
}

proof fn lemma_short_tail(t: Seq<u8>, mc: McView)
    requires
        serializable(mc),
        short(t, e_tail(mc)),
        forall|n: int| 0 <= n <= 3 ==> t.len() != (#[trigger] tail_sections(mc, n)).len(),
    ensures
        p_tail(t) is Err,
{
    reveal(p_tail);
    reveal(e_tail);
    let a = e_list(e_text(), mc.vtable_names);
    let b = e_list(e_text(), mc.static_names);
    let c = e_list(e_truth(), mc.export_takes_receiver);
    let d = e_init(mc.init_fn);
    assert(t.len() != tail_sections(mc, 0).len());
    assert(t.len() != tail_sections(mc, 1).len());
    assert(t.len() != tail_sections(mc, 2).len());
    assert(t.len() != tail_sections(mc, 3).len());
    let t1 = lemma_cut(t, a, b + (c + d));
    if short(t, a) {
        lemma_short_texts(t, mc.vtable_names);
    } else {
        lemma_texts(mc.vtable_names, t1);
        let t2 = lemma_cut(t1, b, c + d);
        if short(t1, b) {
            lemma_short_texts(t1, mc.static_names);
        } else {
            lemma_texts(mc.static_names, t2);
            let t3 = lemma_cut(t2, c, d);
            if short(t2, c) {
                lemma_short_truths(t2, mc.export_takes_receiver);
            } else {
                lemma_truths(mc.export_takes_receiver, t3);
            }
        }
    }
}

/// A buffer that is cut anywhere else is rejected.
pub proof fn truncation_is_rejected(mc: McView, n: int)
    requires
        serializable(mc),
        0 <= n < encoded(mc).len(),
        forall|k: int| 0 <= k <= 3 ==> n != (#[trigger] shortened(mc, k)).len(),
    ensures
        decoded(encoded(mc).take(n)) is Err,
{
    let t = encoded(mc).take(n);
    let m = le32(MAGIC);
    let rest = e_tables(mc) + (e_links(mc) + e_tail(mc));
    assert(short(t, m + rest));
    let t1 = lemma_cut(t, m, rest);
    if !short(t, m) {
        lemma_p_u32(MAGIC, t1);
        assert(t.skip(4) =~= t1);
        let t2 = lemma_cut(t1, e_tables(mc), e_links(mc) + e_tail(mc));
        if short(t1, e_tables(mc)) {
            lemma_short_tables(t1, mc);
        } else {
            lemma_tables(mc, t2);
            let t3 = lemma_cut(t2, e_links(mc), e_tail(mc));
            if short(t2, e_links(mc)) {
                lemma_short_links(t2, mc);
            } else {
                lemma_links(mc, t3);
                assert forall|k: int| 0 <= k <= 3 implies t3.len() != (#[trigger] tail_sections(
                    mc,
                    k,
                )).len() by {
                    assert(n != shortened(mc, k).len());
                }
                lemma_short_tail(t3, mc);
            }
        }
    }
}

// ---- encoding

fn push_count(v: &mut Vec<u8>, n: usize)
    ensures
        final(v)@ == old(v)@ + e_count(n as nat),
{
    push_u32(v, (n as u64 % 0x1_0000_0000) as u32);
}

fn push_blob(v: &mut Vec<u8>, b: &Vec<u8>)
    ensures
        final(v)@ == old(v)@ + e_blob(b@),
{
    proof {
        reveal(e_blob);
    }
    push_u64(v, b.len() as u64);
    push_bytes(v, b.as_slice());
    proof {
        assert(v@ =~= old(v)@ + e_blob(b@));
    }
}

fn push_str(v: &mut Vec<u8>, s: &String)
    ensures
        final(v)@ == old(v)@ + e_str(s@),
{
    proof {
        reveal(e_str);
    }
    let b: &[u8] = s.as_str().as_bytes();
    push_count(v, b.len());
    push_bytes(v, b);
    proof {
        assert(v@ =~= old(v)@ + e_str(s@));
    }
}

/// One value more is encoded behind the others.
proof fn lemma_e_many_step<T>(e: spec_fn(T) -> Seq<u8>, xs: Seq<T>, k: int, front: Seq<u8>)
    requires
        0 <= k < xs.len(),
    ensures
        front + e_many(e, xs.take(k + 1)) == (front + e_many(e, xs.take(k))) + e(xs[k]),
{
    assert(xs.take(k + 1).drop_last() =~= xs.take(k));
    assert(xs.take(k + 1).last() == xs[k]);
    lemma_assoc(front, e_many(e, xs.take(k)), e(xs[k]));
}

proof fn lemma_e_list_start<T>(e: spec_fn(T) -> Seq<u8>, xs: Seq<T>, front: Seq<u8>)
    ensures
        (front + e_count(xs.len())) + e_many(e, xs.take(0)) == front + e_count(xs.len()),
        (front + e_count(xs.len())) + e_many(e, xs.take(xs.len() as int)) == front + e_list(e, xs),
{
    reveal(e_list);
    let c = e_count(xs.len());
    assert(xs.take(0) =~= Seq::empty());
    assert((front + c) + Seq::<u8>::empty() =~= front + c);
    assert(xs.take(xs.len() as int) =~= xs);
    lemma_assoc(front, c, e_many(e, xs));
}

fn push_words(v: &mut Vec<u8>, xs: &Vec<usize>)
    ensures
        final(v)@ == old(v)@ + e_list(e_word(), xs@),
{
    let ghost front = v@ + e_count(xs@.len());
    proof {
        lemma_e_list_start(e_word(), xs@, v@);
    }
    push_count(v, xs.len());
    let mut k: usize = 0;
    while k < xs.len()
        invariant
            k <= xs@.len(),
            v@ == front + e_many(e_word(), xs@.take(k as int)),
        decreases xs.len() - k,
    {
        proof {
            lemma_e_many_step(e_word(), xs@, k as int, front);
        }
        push_u64(v, xs[k] as u64);
        k += 1;
    }
}

fn push_texts(v: &mut Vec<u8>, xs: &Vec<String>)
    ensures
        final(v)@ == old(v)@ + e_list(e_text(), texts(xs@)),
{
    let ghost t = texts(xs@);
    let ghost front = v@ + e_count(t.len());
    proof {
        lemma_e_list_start(e_text(), t, v@);
    }
    push_count(v, xs.len());
    let mut k: usize = 0;
    while k < xs.len()
        invariant
            k <= xs@.len(),
            t == texts(xs@),
            v@ == front + e_many(e_text(), t.take(k as int)),
        decreases xs.len() - k,
    {
        proof {
            lemma_e_many_step(e_text(), t, k as int, front);
        }
        push_str(v, &xs[k]);
        k += 1;
    }
}

fn push_truths(v: &mut Vec<u8>, xs: &Vec<bool>)
    ensures
        final(v)@ == old(v)@ + e_list(e_truth(), xs@),
{
    let ghost front = v@ + e_count(xs@.len());
    proof {
        lemma_e_list_start(e_truth(), xs@, v@);
    }
    push_count(v, xs.len());
    let mut k: usize = 0;
    while k < xs.len()
        invariant
            k <= xs@.len(),
            v@ == front + e_many(e_truth(), xs@.take(k as int)),
        decreases xs.len() - k,
    {
        let ghost before = v@;
        proof {
            lemma_e_many_step(e_truth(), xs@, k as int, front);
        }
        if xs[k] {
            v.push(1);
        } else {
            v.push(0);
        }
        proof {
            assert(v@ =~= before + e_truth()(xs@[k as int]));
        }
        k += 1;
    }
}

fn push_imports(v: &mut Vec<u8>, xs: &Vec<(String, String)>)
    ensures
        final(v)@ == old(v)@ + e_list(e_import(), text_pairs(xs@)),
{
    let ghost t = text_pairs(xs@);
    let ghost front = v@ + e_count(t.len());
    proof {
        lemma_e_list_start(e_import(), t, v@);
    }
    push_count(v, xs.len());
    let mut k: usize = 0;
    while k < xs.len()
        invariant
            k <= xs@.len(),
            t == text_pairs(xs@),
            v@ == front + e_many(e_import(), t.take(k as int)),
        decreases xs.len() - k,
    {
        proof {
            lemma_e_many_step(e_import(), t, k as int, front);
            lemma_assoc(v@, e_str(t[k as int].0), e_str(t[k as int].1));
        }
        push_str(v, &xs[k].0);
        push_str(v, &xs[k].1);
        k += 1;
    }
}

fn push_exports(v: &mut Vec<u8>, xs: &Vec<(String, usize, usize)>)
    ensures
        final(v)@ == old(v)@ + e_list(e_export(), export_views(xs@)),
{
    let ghost t = export_views(xs@);
    let ghost front = v@ + e_count(t.len());
    proof {
        lemma_e_list_start(e_export(), t, v@);
    }
    push_count(v, xs.len());
    let mut k: usize = 0;
    while k < xs.len()
        invariant
            k <= xs@.len(),
            t == export_views(xs@),
            v@ == front + e_many(e_export(), t.take(k as int)),
        decreases xs.len() - k,
    {
        proof {
            let x = t[k as int];
            let a = e_str(x.0);
            let b = le32(wrap32(x.1 as int));
            let c = le32(wrap32(x.2 as int));
            lemma_e_many_step(e_export(), t, k as int, front);
            lemma_assoc(v@, a + b, c);
            lemma_assoc(v@, a, b);
        }
        push_str(v, &xs[k].0);
        push_count(v, xs[k].1);
        push_count(v, xs[k].2);
        k += 1;
    }
}

/// Tag and argument of `s`.
pub fn sym_tag(s: &Sym) -> (r: (u8, u64))
    ensures
        r == sym_code(*s),
{
    match s {
        Sym::Fn(i) => (0, *i as u64),
        Sym::String(i) => (1, *i as u64),
        Sym::VtableOff(i) => (2, *i as u64),
        Sym::HeapBase => (3, 0),
        Sym::HelperItoa => (4, 0),
        Sym::HelperItoaErr => (5, 0),
        Sym::HelperScanInt => (6, 0),
        Sym::HelperRetain => (7, 0),
        Sym::HelperRelease => (8, 0),
        Sym::HelperAlloc => (9, 0),
        Sym::Import(i) => (10, *i as u64),
        Sym::Name(i) => (11, *i as u64),
        Sym::Static(i) => (12, *i as u64),
        Sym::HelperExcEnter => (13, 0),
        Sym::HelperExcPop => (14, 0),
        Sym::HelperExcThrow => (15, 0),
        Sym::HelperExcRethrow => (16, 0),
        Sym::HelperExcLoad => (17, 0),
        Sym::HelperExcClear => (18, 0),
        Sym::ExcState(i) => (19, *i as u64),
        Sym::ArgvRsp => (20, 0),
    }
}

fn push_one(v: &mut Vec<u8>, x: u8)
    ensures
        final(v)@ == old(v)@ + seq![x],
{
    v.push(x);
    assert(v@ =~= old(v)@ + seq![x]);
}

fn push_reloc(v: &mut Vec<u8>, r: &Reloc)
    ensures
        final(v)@ == old(v)@ + e_reloc()(*r),
{
    let (tag, arg) = sym_tag(&r.sym);
    let ghost front = v@;
    let ghost k = seq![kind_code(r.kind)];
    let ghost c = seq![section_code(r.section)];
    let ghost e0 = le64(arg);
    let ghost e1 = seq![tag] + e0;
    let ghost e2 = le64(r.site as u64) + e1;
    proof {
        lemma_assoc(front, k, c + e2);
        lemma_assoc(front + k, c, e2);
        lemma_assoc(front + k + c, le64(r.site as u64), e1);
        lemma_assoc(front + k + c + le64(r.site as u64), seq![tag], e0);
    }
    push_one(
        v,
        match r.kind {
            RelocKind::Abs64 => 0,
            RelocKind::Rel32Call => 1,
        },
    );
    push_one(
        v,
        match r.section {
            Section::Code => 0,
            Section::Data => 1,
        },
    );
    push_u64(v, r.site as u64);
    push_one(v, tag);
    push_u64(v, arg);
}

fn push_relocs(v: &mut Vec<u8>, xs: &Vec<Reloc>)
    ensures
        final(v)@ == old(v)@ + e_list(e_reloc(), xs@),
{
    let ghost front = v@ + e_count(xs@.len());
    proof {
        lemma_e_list_start(e_reloc(), xs@, v@);
    }
    push_count(v, xs.len());
    let mut k: usize = 0;
    while k < xs.len()
        invariant
            k <= xs@.len(),
            v@ == front + e_many(e_reloc(), xs@.take(k as int)),
        decreases xs.len() - k,
    {
        proof {
            lemma_e_many_step(e_reloc(), xs@, k as int, front);
        }
        push_reloc(v, &xs[k]);
        k += 1;
    }
}

/// The byte of flags of `xs`.
fn flags_of(xs: &Vec<Option<usize>>) -> (r: u8)
    requires
        xs@.len() <= 8,
    ensures
        r == flag_byte(xs@) as u8,
{
    let mut r: u8 = 0;
    let mut k: usize = xs.len();
    proof {
        assert(xs@.skip(k as int) =~= Seq::empty());
    }
    while k > 0
        invariant
            k <= xs@.len() <= 8,
            r == flag_byte(xs@.skip(k as int)),
        decreases k,
    {
        k -= 1;
        proof {
            let rest = xs@.skip(k as int);
            assert(rest.skip(1) =~= xs@.skip(k + 1));
            assert(rest[0] == xs@[k as int]);
            lemma_flag_byte(rest);
        }
        r = if xs[k].is_some() {
            2 * r + 1
        } else {
            2 * r
        };
    }
    proof {
        assert(xs@.skip(0) =~= xs@);
        lemma_flag_byte(xs@);
    }
    r
}

fn push_flagged(v: &mut Vec<u8>, xs: &Vec<Option<usize>>)
    requires
        xs@.len() <= 8,
    ensures
        final(v)@ == old(v)@ + e_flagged(xs@),
{
    let flags: u8 = flags_of(xs);
    push_one(v, flags);
    let ghost front = v@;
    let mut k: usize = 0;
    proof {
        assert(front =~= front + e_options(xs@.take(0)));
    }
    while k < xs.len()
        invariant
            k <= xs@.len(),
            v@ == front + e_options(xs@.take(k as int)),
        decreases xs.len() - k,
    {
        let ghost before = v@;
        proof {
            assert(xs@.take(k + 1).drop_last() =~= xs@.take(k as int));
            assert(xs@.take(k + 1).last() == xs@[k as int]);
        }
        if let Some(x) = xs[k] {
            push_u64(v, x as u64);
            proof {
                lemma_assoc(front, e_options(xs@.take(k as int)), le64(x as u64));
            }
        } else {
            proof {
                assert(e_options(xs@.take(k as int)) + seq![] =~= e_options(xs@.take(k as int)));
            }
        }
        k += 1;
    }
    proof {
        reveal(e_flagged);
        assert(xs@.take(k as int) =~= xs@);
        lemma_assoc(old(v)@, seq![flags], e_options(xs@));
    }
}

/// The buffer of `mc`.
pub fn encode(mc: &MachineCode) -> (v: Vec<u8>)
    ensures
        v@ == encoded(mc@),
{
    let ghost m = mc@;
    let mut v: Vec<u8> = Vec::new();
    push_u32(&mut v, MAGIC);
    let ghost g0 = v@;
    proof {
        assert(g0 =~= le32(MAGIC));
    }
    push_blob(&mut v, &mc.code);
    push_blob(&mut v, &mc.data);
    push_words(&mut v, &mc.fn_bases);
    push_words(&mut v, &mc.vtable_offsets);
    push_words(&mut v, &mc.static_offsets);
    let helpers: Vec<Option<usize>> = vec![
        mc.helper_itoa,
        mc.helper_itoa_err,
        mc.helper_scan_int,
        mc.helper_retain,
        mc.helper_release,
        mc.helper_alloc,
    ];
    proof {
        assert(helpers@ =~= helpers_of(m));
    }
    push_flagged(&mut v, &helpers);
    let exc_helpers: Vec<Option<usize>> = vec![
        mc.helper_exc_enter,
        mc.helper_exc_pop,
        mc.helper_exc_throw,
        mc.helper_exc_rethrow,
        mc.helper_exc_load,
        mc.helper_exc_clear,
        mc.exc_state_offset,
        mc.helper_argv,
    ];
    proof {
        assert(exc_helpers@ =~= exc_helpers_of(m));
    }
    push_flagged(&mut v, &exc_helpers);
    let ghost g1 = v@;
    proof {
        lemma_tables_in_order(m, g0);
        assert(g1 == g0 + e_tables(m));
    }
    push_imports(&mut v, &mc.import_names);
    push_words(&mut v, &mc.import_bases);
    push_exports(&mut v, &mc.exports);
    push_relocs(&mut v, &mc.relocs);
    push_u64(&mut v, mc.heap_size);
    let ghost g2 = v@;
    proof {
        lemma_links_in_order(m, g1);
        assert(g2 == g1 + e_links(m));
    }
    push_texts(&mut v, &mc.vtable_names);
    push_texts(&mut v, &mc.static_names);
    push_truths(&mut v, &mc.export_takes_receiver);
    match mc.init_fn {
        Some(i) => push_count(&mut v, i),
        None => push_u32(&mut v, u32::MAX),
    }
    proof {
        lemma_tail_in_order(m, g2);
        assert(v@ == g2 + e_tail(m));
        lemma_assoc(g0, e_tables(m), e_links(m) + e_tail(m));
        lemma_assoc(g0 + e_tables(m), e_links(m), e_tail(m));
    }
    v
}

proof fn lemma_tables_in_order(m: McView, g: Seq<u8>)
    ensures
        g + e_blob(m.code) + e_blob(m.data) + e_list(e_word(), m.fn_bases) + e_list(
            e_word(),
            m.vtable_offsets,
        ) + e_list(e_word(), m.static_offsets) + e_flagged(helpers_of(m)) + e_flagged(
            exc_helpers_of(m),
        ) == g + e_tables(m),
{
    reveal(e_tables);
    let a = e_blob(m.code);
    let b = e_blob(m.data);
    let c = e_list(e_word(), m.fn_bases);
    let d = e_list(e_word(), m.vtable_offsets);
    let e = e_list(e_word(), m.static_offsets);
    let f = e_flagged(helpers_of(m));
    let h = e_flagged(exc_helpers_of(m));
    lemma_assoc(g, a, b + (c + (d + (e + (f + h)))));
    lemma_assoc(g + a, b, c + (d + (e + (f + h))));
    lemma_assoc(g + a + b, c, d + (e + (f + h)));
    lemma_assoc(g + a + b + c, d, e + (f + h));
    lemma_assoc(g + a + b + c + d, e, f + h);
    lemma_assoc(g + a + b + c + d + e, f, h);
}

proof fn lemma_links_in_order(m: McView, g: Seq<u8>)
    ensures
        g + e_list(e_import(), m.import_names) + e_list(e_word(), m.import_bases) + e_list(
            e_export(),
            m.exports,
        ) + e_list(e_reloc(), m.relocs) + le64(m.heap_size) == g + e_links(m),
{
    reveal(e_links);
    let a = e_list(e_import(), m.import_names);
    let b = e_list(e_word(), m.import_bases);
    let c = e_list(e_export(), m.exports);
    let d = e_list(e_reloc(), m.relocs);
    let e = le64(m.heap_size);
    lemma_assoc(g, a, b + (c + (d + e)));
    lemma_assoc(g + a, b, c + (d + e));
    lemma_assoc(g + a + b, c, d + e);
    lemma_assoc(g + a + b + c, d, e);
}

proof fn lemma_tail_in_order(m: McView, g: Seq<u8>)
    ensures
        g + e_list(e_text(), m.vtable_names) + e_list(e_text(), m.static_names) + e_list(
            e_truth(),
            m.export_takes_receiver,
        ) + e_init(m.init_fn) == g + e_tail(m),
{
    reveal(e_tail);
    let a = e_list(e_text(), m.vtable_names);
    let b = e_list(e_text(), m.static_names);
    let c = e_list(e_truth(), m.export_takes_receiver);
    let d = e_init(m.init_fn);
    lemma_assoc(g, a, b + (c + d));
    lemma_assoc(g + a, b, c + d);
    lemma_assoc(g + a + b, c, d);
}

// ---- decoding

/// A failure among the first values fails the list.
proof fn lemma_many_fails<T>(p: spec_fn(Seq<u8>) -> Parse<T>, b: Seq<u8>, k: nat, n: nat)
    requires
        k <= n,
        p_many(p, b, k) is Err,
    ensures
        p_many(p, b, n) == p_many(p, b, k),
    decreases n,
{
    if k < n {
        lemma_many_fails(p, b, k, (n - 1) as nat);
    }
}

proof fn lemma_options_fail(b: Seq<u8>, flags: u8, k: nat, n: nat)
    requires
        k <= n,
        p_options(b, flags, k) is Err,
    ensures
        p_options(b, flags, n) == p_options(b, flags, k),
    decreases n,
{
    if k < n {
        lemma_options_fail(b, flags, k, (n - 1) as nat);
    }
}

proof fn lemma_options_number(b: Seq<u8>, flags: u8, n: nat)
    ensures
        p_options(b, flags, n) matches Ok((xs, _)) ==> xs.len() == n,
    decreases n,
{
    if n > 0 {
        lemma_options_number(b, flags, (n - 1) as nat);
    }
}

/// A buffer and how much of it has been read.
struct Reader<'a> {
    bytes: &'a [u8],
    pos: usize,
}

impl<'a> Reader<'a> {
    spec fn ok(self) -> bool {
        self.pos <= self.bytes@.len()
    }

    /// What is left to read.
    spec fn rest(self) -> Seq<u8> {
        self.bytes@.skip(self.pos as int)
    }

    fn is_empty(&self) -> (r: bool)
        requires
            self.ok(),
        ensures
            r == (self.rest().len() == 0),
    {
        self.pos >= self.bytes.len()
    }

    fn byte(&mut self) -> (r: Result<u8, String>)
        requires
            old(self).ok(),
        ensures
            final(self).ok(),
            match p_byte(old(self).rest()) {
                Ok((x, rest)) => r == Ok::<u8, String>(x) && final(self).rest() == rest,
                Err(m) => r matches Err(e) && e@ == m,
            },
            final(self).bytes@ == old(self).bytes@,
            final(self).pos == old(self).pos + if r is Ok {
                1int
            } else {
                0
            },
    {
        if self.pos >= self.bytes.len() {
            return Err("machine code: truncated".to_owned());
        }
        let x: u8 = self.bytes[self.pos];
        self.pos = self.pos + 1;
        proof {
            assert(self.rest() =~= old(self).rest().skip(1));
        }
        Ok(x)
    }

    fn u32(&mut self) -> (r: Result<u32, String>)
        requires
            old(self).ok(),
        ensures
            final(self).ok(),
            match p_u32(old(self).rest()) {
                Ok((x, rest)) => r == Ok::<u32, String>(x) && final(self).rest() == rest,
                Err(m) => r matches Err(e) && e@ == m,
            },
            final(self).bytes@ == old(self).bytes@,
            final(self).pos == old(self).pos + if r is Ok {
                4int
            } else {
                0
            },
    {
        if self.bytes.len() - self.pos < 4 {
            return Err("machine code: truncated u32".to_owned());
        }
        let x: u32 = get_u32(self.bytes, self.pos);
        self.pos = self.pos + 4;
        proof {
            assert(self.rest() =~= old(self).rest().skip(4));
        }
        Ok(x)
    }

    fn u64(&mut self) -> (r: Result<u64, String>)
        requires
            old(self).ok(),
        ensures
            final(self).ok(),
            match p_u64(old(self).rest()) {
                Ok((x, rest)) => r == Ok::<u64, String>(x) && final(self).rest() == rest,
                Err(m) => r matches Err(e) && e@ == m,
            },
            final(self).bytes@ == old(self).bytes@,
            final(self).pos == old(self).pos + if r is Ok {
                8int
            } else {
                0
            },
    {
        if self.bytes.len() - self.pos < 8 {
            return Err("machine code: truncated u64".to_owned());
        }
        let x: u64 = get_u64(self.bytes, self.pos);
        self.pos = self.pos + 8;
        proof {
            assert(self.rest() =~= old(self).rest().skip(8));
        }
        Ok(x)
    }

    fn word(&mut self) -> (r: Result<usize, String>)
        requires
            old(self).ok(),
        ensures
            final(self).ok(),
            match p_word(old(self).rest()) {
                Ok((x, rest)) => r == Ok::<usize, String>(x) && final(self).rest() == rest,
                Err(m) => r matches Err(e) && e@ == m,
            },
            final(self).bytes@ == old(self).bytes@,
            final(self).pos == old(self).pos + if r is Ok {
                8int
            } else {
                0
            },
    {
        match self.u64() {
            Ok(x) => Ok(x as usize),
            Err(e) => Err(e),
        }
    }

    fn bytes(&mut self, n: usize) -> (r: Result<Vec<u8>, String>)
        requires
            old(self).ok(),
        ensures
            final(self).ok(),
            match p_bytes(old(self).rest(), n as int) {
                Ok((x, rest)) => r matches Ok(v) && v@ == x && final(self).rest() == rest,
                Err(m) => r matches Err(e) && e@ == m,
            },
            final(self).bytes@ == old(self).bytes@,
            final(self).pos == old(self).pos + if r is Ok {
                n as int
            } else {
                0
            },
    {
        if self.bytes.len() - self.pos < n {
            return Err("machine code: truncated".to_owned());
        }
        let mut v: Vec<u8> = Vec::new();
        push_bytes(&mut v, slice_subrange(self.bytes, self.pos, self.pos + n));
        self.pos = self.pos + n;
        proof {
            assert(v@ =~= old(self).rest().take(n as int));
            assert(self.rest() =~= old(self).rest().skip(n as int));
        }
        Ok(v)
    }

    fn blob(&mut self) -> (r: Result<Vec<u8>, String>)
        requires
            old(self).ok(),
        ensures
            final(self).ok(),
            match p_blob(old(self).rest()) {
                Ok((x, rest)) => r matches Ok(v) && v@ == x && final(self).rest() == rest,
                Err(m) => r matches Err(e) && e@ == m,
            },
    {
        proof {
            reveal(p_blob);
        }
        match self.word() {
            Ok(n) => self.bytes(n),
            Err(e) => Err(e),
        }
    }

    fn str(&mut self) -> (r: Result<String, String>)
        requires
            old(self).ok(),
        ensures
            final(self).ok(),
            match p_str(old(self).rest()) {
                Ok((x, rest)) => r matches Ok(s) && s@ == x && final(self).rest() == rest,
                Err(m) => r matches Err(e) && e@ == m,
            },
    {
        proof {
            reveal(p_str);
        }
        match self.u32() {
            Ok(n) => match self.bytes(n as usize) {
                Ok(b) => Ok(from_utf8_lossy(b.as_slice())),
                Err(e) => Err(e),
            },
            Err(e) => Err(e),
        }
    }

    fn truth(&mut self) -> (r: Result<bool, String>)
        requires
            old(self).ok(),
        ensures
            final(self).ok(),
            match truth()(old(self).rest()) {
                Ok((x, rest)) => r == Ok::<bool, String>(x) && final(self).rest() == rest,
                Err(m) => r matches Err(e) && e@ == m,
            },
    {
        match self.byte() {
            Ok(x) => Ok(x != 0),
            Err(e) => Err(e),
        }
    }

    fn import(&mut self) -> (r: Result<(String, String), String>)
        requires
            old(self).ok(),
        ensures
            final(self).ok(),
            match p_import(old(self).rest()) {
                Ok((x, rest)) => r matches Ok(v) && v.0@ == x.0 && v.1@ == x.1
                    && final(self).rest() == rest,
                Err(m) => r matches Err(e) && e@ == m,
            },
    {
        match self.str() {
            Ok(lib) => match self.str() {
                Ok(name) => Ok((lib, name)),
                Err(e) => Err(e),
            },
            Err(e) => Err(e),
        }
    }

    fn export(&mut self) -> (r: Result<(String, usize, usize), String>)
        requires
            old(self).ok(),
        ensures
            final(self).ok(),
            match p_export(old(self).rest()) {
                Ok((x, rest)) => r matches Ok(v) && v.0@ == x.0 && v.1 == x.1 && v.2 == x.2
                    && final(self).rest() == rest,
                Err(m) => r matches Err(e) && e@ == m,
            },
    {
        match self.str() {
            Ok(name) => match self.u32() {
                Ok(f) => match self.u32() {
                    Ok(arity) => Ok((name, f as usize, arity as usize)),
                    Err(e) => Err(e),
                },
                Err(e) => Err(e),
            },
            Err(e) => Err(e),
        }
    }

    fn kind(&mut self) -> (r: Result<RelocKind, String>)
        requires
            old(self).ok(),
        ensures
            final(self).ok(),
            match p_kind(old(self).rest()) {
                Ok((x, rest)) => r == Ok::<RelocKind, String>(x) && final(self).rest() == rest,
                Err(m) => r matches Err(e) && e@ == m,
            },
    {
        match self.byte() {
            Ok(x) => {
                if x == 0 {
                    Ok(RelocKind::Abs64)
                } else if x == 1 {
                    Ok(RelocKind::Rel32Call)
                } else {
                    Err("machine code: bad reloc kind".to_owned())
                }
            },
            Err(e) => Err(e),
        }
    }

    fn section(&mut self) -> (r: Result<Section, String>)
        requires
            old(self).ok(),
        ensures
            final(self).ok(),
            match p_section(old(self).rest()) {
                Ok((x, rest)) => r == Ok::<Section, String>(x) && final(self).rest() == rest,
                Err(m) => r matches Err(e) && e@ == m,
            },
    {
        match self.byte() {
            Ok(x) => {
                if x == 0 {
                    Ok(Section::Code)
                } else if x == 1 {
                    Ok(Section::Data)
                } else {
                    Err("machine code: bad reloc section".to_owned())
                }
            },
            Err(e) => Err(e),
        }
    }

    fn sym(&mut self) -> (r: Result<Sym, String>)
        requires
            old(self).ok(),
        ensures
            final(self).ok(),
            match p_sym(old(self).rest()) {
                Ok((x, rest)) => r == Ok::<Sym, String>(x) && final(self).rest() == rest,
                Err(m) => r matches Err(e) && e@ == m,
            },
    {
        match self.byte() {
            Ok(tag) => match self.u64() {
                Ok(arg) => match sym_from(tag, arg) {
                    Some(s) => Ok(s),
                    None => Err("machine code: bad reloc sym".to_owned()),
                },
                Err(e) => Err(e),
            },
            Err(e) => Err(e),
        }
    }

    fn reloc(&mut self) -> (r: Result<Reloc, String>)
        requires
            old(self).ok(),
        ensures
            final(self).ok(),
            match p_reloc(old(self).rest()) {
                Ok((x, rest)) => r == Ok::<Reloc, String>(x) && final(self).rest() == rest,
                Err(m) => r matches Err(e) && e@ == m,
            },
    {
        match self.kind() {
            Ok(kind) => match self.section() {
                Ok(section) => match self.word() {
                    Ok(site) => match self.sym() {
                        Ok(sym) => Ok(Reloc { kind, section, site, sym }),
                        Err(e) => Err(e),
                    },
                    Err(e) => Err(e),
                },
                Err(e) => Err(e),
            },
            Err(e) => Err(e),
        }
    }

    /// `n` optional sizes.
    fn options(&mut self, flags: u8, n: usize) -> (r: Result<Vec<Option<usize>>, String>)
        requires
            old(self).ok(),
        ensures
            final(self).ok(),
            match p_options(old(self).rest(), flags, n as nat) {
                Ok((xs, rest)) => r matches Ok(v) && v@ == xs && final(self).rest() == rest,
                Err(m) => r matches Err(e) && e@ == m,
            },
    {
        let ghost start = self.rest();
        let mut v: Vec<Option<usize>> = Vec::new();
        let mut f: u8 = flags;
        let mut k: usize = 0;
        proof {
            assert(v@ =~= Seq::empty());
        }
        while k < n
            invariant
                k <= n,
                start == old(self).rest(),
                self.ok(),
                forall|j: int| k <= j ==> #[trigger] flag(flags, j) == flag(f, j - k),
                p_options(start, flags, k as nat) == Ok::<
                    (Seq<Option<usize>>, Seq<u8>),
                    Seq<char>,
                >((v@, self.rest())),
            decreases n - k,
        {
            proof {
                assert(flag(flags, k as int) == flag(f, 0));
                assert forall|j: int| k + 1 <= j implies #[trigger] flag(flags, j) == flag(
                    (f / 2) as u8,
                    j - (k + 1),
                ) by {
                    assert(flag(flags, j) == flag(f, j - k));
                }
            }
            if f % 2 == 1 {
                match self.word() {
                    Ok(x) => v.push(Some(x)),
                    Err(e) => {
                        proof {
                            lemma_options_fail(start, flags, (k + 1) as nat, n as nat);
                        }
                        return Err(e);
                    },
                }
            } else {
                v.push(None);
            }
            f = f / 2;
            k += 1;
        }
        Ok(v)
    }

    fn flagged(&mut self, n: usize) -> (r: Result<Vec<Option<usize>>, String>)
        requires
            old(self).ok(),
        ensures
            final(self).ok(),
            match p_flagged(old(self).rest(), n as nat) {
                Ok((xs, rest)) => r matches Ok(v) && v@ == xs && xs.len() == n
                    && final(self).rest() == rest,
                Err(m) => r matches Err(e) && e@ == m,
            },
    {
        proof {
            reveal(p_flagged);
        }
        match self.byte() {
            Ok(flags) => {
                proof {
                    lemma_options_number(self.rest(), flags, n as nat);
                }
                self.options(flags, n)
            },
            Err(e) => Err(e),
        }
    }

    fn many_words(&mut self, n: u32) -> (r: Result<Vec<usize>, String>)
        requires
            old(self).ok(),
        ensures
            final(self).ok(),
            match p_many(word(), old(self).rest(), n as nat) {
                Ok((xs, rest)) => r matches Ok(v) && v@ == xs && final(self).rest() == rest,
                Err(m) => r matches Err(e) && e@ == m,
            },
    {
        let ghost start = self.rest();
        let mut v: Vec<usize> = Vec::new();
        let mut k: u32 = 0;
        proof {
            assert(v@ =~= Seq::empty());
        }
        while k < n
            invariant
                k <= n,
                start == old(self).rest(),
                self.ok(),
                p_many(word(), start, k as nat) == Ok::<(Seq<usize>, Seq<u8>), Seq<char>>(
                    (v@, self.rest()),
                ),
            decreases n - k,
        {
            let ghost before = v@;
            match self.word() {
                Ok(x) => {
                    v.push(x);
                    proof {
                        assert(v@ =~= before.push(x));
                    }
                },
                Err(e) => {
                    proof {
                        lemma_many_fails(word(), start, (k + 1) as nat, n as nat);
                    }
                    return Err(e);
                },
            }
            k += 1;
        }
        Ok(v)
    }

    fn many_texts(&mut self, n: u32) -> (r: Result<Vec<String>, String>)
        requires
            old(self).ok(),
        ensures
            final(self).ok(),
            match p_many(text(), old(self).rest(), n as nat) {
                Ok((xs, rest)) => r matches Ok(v) && texts(v@) == xs && final(self).rest() == rest,
                Err(m) => r matches Err(e) && e@ == m,
            },
    {
        let ghost start = self.rest();
        let mut v: Vec<String> = Vec::new();
        let mut k: u32 = 0;
        proof {
            assert(texts(v@) =~= Seq::empty());
        }
        while k < n
            invariant
                k <= n,
                start == old(self).rest(),
                self.ok(),
                p_many(text(), start, k as nat) == Ok::<(Seq<Seq<char>>, Seq<u8>), Seq<char>>(
                    (texts(v@), self.rest()),
                ),
            decreases n - k,
        {
            let ghost before = texts(v@);
            match self.str() {
                Ok(x) => {
                    v.push(x);
                    proof {
                        assert(texts(v@) =~= before.push(x@));
                    }
                },
                Err(e) => {
                    proof {
                        lemma_many_fails(text(), start, (k + 1) as nat, n as nat);
                    }
                    return Err(e);
                },
            }
            k += 1;
        }
        Ok(v)
    }

    fn many_truths(&mut self, n: u32) -> (r: Result<Vec<bool>, String>)
        requires
            old(self).ok(),
        ensures
            final(self).ok(),
            match p_many(truth(), old(self).rest(), n as nat) {
                Ok((xs, rest)) => r matches Ok(v) && v@ == xs && final(self).rest() == rest,
                Err(m) => r matches Err(e) && e@ == m,
            },
    {
        let ghost start = self.rest();
        let mut v: Vec<bool> = Vec::new();
        let mut k: u32 = 0;
        proof {
            assert(v@ =~= Seq::empty());
        }
        while k < n
            invariant
                k <= n,
                start == old(self).rest(),
                self.ok(),
                p_many(truth(), start, k as nat) == Ok::<(Seq<bool>, Seq<u8>), Seq<char>>(
                    (v@, self.rest()),
                ),
            decreases n - k,
        {
            let ghost before = v@;
            match self.truth() {
                Ok(x) => {
                    v.push(x);
                    proof {
                        assert(v@ =~= before.push(x));
                    }
                },
                Err(e) => {
                    proof {
                        lemma_many_fails(truth(), start, (k + 1) as nat, n as nat);
                    }
                    return Err(e);
                },
            }
            k += 1;
        }
        Ok(v)
    }

    fn many_imports(&mut self, n: u32) -> (r: Result<Vec<(String, String)>, String>)
        requires
            old(self).ok(),
        ensures
            final(self).ok(),
            match p_many(import(), old(self).rest(), n as nat) {
                Ok((xs, rest)) => r matches Ok(v) && text_pairs(v@) == xs && final(self).rest() == rest,
                Err(m) => r matches Err(e) && e@ == m,
            },
    {
        let ghost start = self.rest();
        let mut v: Vec<(String, String)> = Vec::new();
        let mut k: u32 = 0;
        proof {
            assert(text_pairs(v@) =~= Seq::empty());
        }
        while k < n
            invariant
                k <= n,
                start == old(self).rest(),
                self.ok(),
                p_many(import(), start, k as nat) == Ok::<(Seq<(Seq<char>, Seq<char>)>, Seq<u8>), Seq<char>>(
                    (text_pairs(v@), self.rest()),
                ),
            decreases n - k,
        {
            let ghost before = text_pairs(v@);
            match self.import() {
                Ok(x) => {
                    v.push(x);
                    proof {
                        assert(text_pairs(v@) =~= before.push((x.0@, x.1@)));
                    }
                },
                Err(e) => {
                    proof {
                        lemma_many_fails(import(), start, (k + 1) as nat, n as nat);
                    }
                    return Err(e);
                },
            }
            k += 1;
        }
        Ok(v)
    }

    fn many_exports(&mut self, n: u32) -> (r: Result<Vec<(String, usize, usize)>, String>)
        requires
            old(self).ok(),
        ensures
            final(self).ok(),
            match p_many(export(), old(self).rest(), n as nat) {
                Ok((xs, rest)) => r matches Ok(v) && export_views(v@) == xs && final(self).rest() == rest,
                Err(m) => r matches Err(e) && e@ == m,
            },
    {
        let ghost start = self.rest();
        let mut v: Vec<(String, usize, usize)> = Vec::new();
        let mut k: u32 = 0;
        proof {
            assert(export_views(v@) =~= Seq::empty());
        }
        while k < n
            invariant
                k <= n,
                start == old(self).rest(),
                self.ok(),
                p_many(export(), start, k as nat) == Ok::<(Seq<(Seq<char>, usize, usize)>, Seq<u8>), Seq<char>>(
                    (export_views(v@), self.rest()),
                ),
            decreases n - k,
        {
            let ghost before = export_views(v@);
            match self.export() {
                Ok(x) => {
                    v.push(x);
                    proof {
                        assert(export_views(v@) =~= before.push((x.0@, x.1, x.2)));
                    }
                },
                Err(e) => {
                    proof {
                        lemma_many_fails(export(), start, (k + 1) as nat, n as nat);
                    }
                    return Err(e);
                },
            }
            k += 1;
        }
        Ok(v)
    }

    fn many_relocs(&mut self, n: u32) -> (r: Result<Vec<Reloc>, String>)
        requires
            old(self).ok(),
        ensures
            final(self).ok(),
            match p_many(reloc(), old(self).rest(), n as nat) {
                Ok((xs, rest)) => r matches Ok(v) && v@ == xs && final(self).rest() == rest,
                Err(m) => r matches Err(e) && e@ == m,
            },
    {
        let ghost start = self.rest();
        let mut v: Vec<Reloc> = Vec::new();
        let mut k: u32 = 0;
        proof {
            assert(v@ =~= Seq::empty());
        }
        while k < n
            invariant
                k <= n,
                start == old(self).rest(),
                self.ok(),
                p_many(reloc(), start, k as nat) == Ok::<(Seq<Reloc>, Seq<u8>), Seq<char>>(
                    (v@, self.rest()),
                ),
            decreases n - k,
        {
            let ghost before = v@;
            match self.reloc() {
                Ok(x) => {
                    v.push(x);
                    proof {
                        assert(v@ =~= before.push(x));
                    }
                },
                Err(e) => {
                    proof {
                        lemma_many_fails(reloc(), start, (k + 1) as nat, n as nat);
                    }
                    return Err(e);
                },
            }
            k += 1;
        }
        Ok(v)
    }

    fn words(&mut self) -> (r: Result<Vec<usize>, String>)
        requires
            old(self).ok(),
        ensures
            final(self).ok(),
            match p_list(word(), old(self).rest()) {
                Ok((xs, rest)) => r matches Ok(v) && v@ == xs && final(self).rest() == rest,
                Err(m) => r matches Err(e) && e@ == m,
            },
    {
        proof {
            reveal(p_list);
        }
        match self.u32() {
            Ok(n) => self.many_words(n),
            Err(e) => Err(e),
        }
    }

    fn imports(&mut self) -> (r: Result<Vec<(String, String)>, String>)
        requires
            old(self).ok(),
        ensures
            final(self).ok(),
            match p_list(import(), old(self).rest()) {
                Ok((xs, rest)) => r matches Ok(v) && text_pairs(v@) == xs && final(self).rest() == rest,
                Err(m) => r matches Err(e) && e@ == m,
            },
    {
        proof {
            reveal(p_list);
        }
        match self.u32() {
            Ok(n) => self.many_imports(n),
            Err(e) => Err(e),
        }
    }

    fn exports(&mut self) -> (r: Result<Vec<(String, usize, usize)>, String>)
        requires
            old(self).ok(),
        ensures
            final(self).ok(),
            match p_list(export(), old(self).rest()) {
                Ok((xs, rest)) => r matches Ok(v) && export_views(v@) == xs && final(self).rest() == rest,
                Err(m) => r matches Err(e) && e@ == m,
            },
    {
        proof {
            reveal(p_list);
        }
        match self.u32() {
            Ok(n) => self.many_exports(n),
            Err(e) => Err(e),
        }
    }

    fn relocs(&mut self) -> (r: Result<Vec<Reloc>, String>)
        requires
            old(self).ok(),
        ensures
            final(self).ok(),
            match p_list(reloc(), old(self).rest()) {
                Ok((xs, rest)) => r matches Ok(v) && v@ == xs && final(self).rest() == rest,
                Err(m) => r matches Err(e) && e@ == m,
            },
    {
        proof {
            reveal(p_list);
        }
        match self.u32() {
            Ok(n) => self.many_relocs(n),
            Err(e) => Err(e),
        }
    }

    fn trailing_texts(&mut self) -> (r: Result<Vec<String>, String>)
        requires
            old(self).ok(),
        ensures
            final(self).ok(),
            match p_trailing(text(), old(self).rest()) {
                Ok((xs, rest)) => r matches Ok(v) && texts(v@) == xs && final(self).rest() == rest,
                Err(m) => r matches Err(e) && e@ == m,
            },
    {
        proof {
            reveal(p_list);
        }
        if self.is_empty() {
            let v: Vec<String> = Vec::new();
            proof {
                assert(texts(v@) =~= Seq::empty());
            }
            return Ok(v);
        }
        match self.u32() {
            Ok(n) => self.many_texts(n),
            Err(e) => Err(e),
        }
    }

    fn trailing_truths(&mut self) -> (r: Result<Vec<bool>, String>)
        requires
            old(self).ok(),
        ensures
            final(self).ok(),
            match p_trailing(truth(), old(self).rest()) {
                Ok((xs, rest)) => r matches Ok(v) && v@ == xs && final(self).rest() == rest,
                Err(m) => r matches Err(e) && e@ == m,
            },
    {
        proof {
            reveal(p_list);
        }
        if self.is_empty() {
            let v: Vec<bool> = Vec::new();
            proof {
                assert(v@ =~= Seq::empty());
            }
            return Ok(v);
        }
        match self.u32() {
            Ok(n) => self.many_truths(n),
            Err(e) => Err(e),
        }
    }

    fn init(&mut self) -> (r: Result<Option<usize>, String>)
        requires
            old(self).ok(),
        ensures
            final(self).ok(),
            match p_init(old(self).rest()) {
                Ok((x, rest)) => r == Ok::<Option<usize>, String>(x) && final(self).rest() == rest,
                Err(m) => r matches Err(e) && e@ == m,
            },
    {
        if self.is_empty() {
            return Ok(None);
        }
        match self.u32() {
            Ok(x) => {
                if x == u32::MAX {
                    Ok(None)
                } else {
                    Ok(Some(x as usize))
                }
            },
            Err(e) => Err(e),
        }
    }
}

/// The symbol of a tag and an argument.
pub fn sym_from(tag: u8, arg: u64) -> (r: Option<Sym>)
    ensures
        r == sym_of(tag, arg),
{
    let i: usize = arg as usize;
    match tag {
        0 => Some(Sym::Fn(i)),
        1 => Some(Sym::String(i)),
        2 => Some(Sym::VtableOff(i)),
        3 => Some(Sym::HeapBase),
        4 => Some(Sym::HelperItoa),
        5 => Some(Sym::HelperItoaErr),
        6 => Some(Sym::HelperScanInt),
        7 => Some(Sym::HelperRetain),
        8 => Some(Sym::HelperRelease),
        9 => Some(Sym::HelperAlloc),
        10 => Some(Sym::Import(i)),
        11 => Some(Sym::Name(i)),
        12 => Some(Sym::Static(i)),
        13 => Some(Sym::HelperExcEnter),
        14 => Some(Sym::HelperExcPop),
        15 => Some(Sym::HelperExcThrow),
        16 => Some(Sym::HelperExcRethrow),
        17 => Some(Sym::HelperExcLoad),
        18 => Some(Sym::HelperExcClear),
        19 => Some(Sym::ExcState(i)),
        20 => Some(Sym::ArgvRsp),
        _ => None,
    }
}

/// The machine code that `bytes` hold, or what is wrong with them.
pub fn decode(bytes: &[u8]) -> (r: Result<MachineCode, String>)
    ensures
        match decoded(bytes@) {
            Ok(want) => r matches Ok(mc) && mc@ == want,
            Err(m) => r matches Err(e) && e@ == m,
        },
{
    if bytes.len() < 4 || get_u32(bytes, 0) != MAGIC {
        return Err("machine code: bad magic".to_owned());
    }
    let mut r = Reader { bytes, pos: 4 };
    let t: ReadTables = match r.tables() {
        Ok(t) => t,
        Err(e) => {
            return Err(e);
        },
    };
    let l: ReadLinks = match r.links() {
        Ok(l) => l,
        Err(e) => {
            return Err(e);
        },
    };
    let e: ReadTail = match r.tail() {
        Ok(e) => e,
        Err(e) => {
            return Err(e);
        },
    };
    let mc = MachineCode {
        code: t.code,
        data: t.data,
        fn_bases: t.fn_bases,
        vtable_offsets: t.vtable_offsets,
        vtable_names: e.vtable_names,
        static_offsets: t.static_offsets,
        static_names: e.static_names,
        helper_itoa: t.helpers[0],
        helper_itoa_err: t.helpers[1],
        helper_scan_int: t.helpers[2],
        helper_retain: t.helpers[3],
        helper_release: t.helpers[4],
        helper_alloc: t.helpers[5],
        helper_exc_enter: t.exc_helpers[0],
        helper_exc_pop: t.exc_helpers[1],
        helper_exc_throw: t.exc_helpers[2],
        helper_exc_rethrow: t.exc_helpers[3],
        helper_exc_load: t.exc_helpers[4],
        helper_exc_clear: t.exc_helpers[5],
        exc_state_offset: t.exc_helpers[6],
        helper_argv: t.exc_helpers[7],
        import_names: l.import_names,
        import_bases: l.import_bases,
        import_abs: Vec::new(),
        exports: l.exports,
        export_takes_receiver: e.export_takes_receiver,
        init_fn: e.init_fn,
        relocs: l.relocs,
        heap_size: l.heap_size,
    };
    proof {
        assert(mc.import_abs@ =~= Seq::empty());
        assert(mc@ =~= assemble(t@, l@, e@));
    }
    Ok(mc)
}

/// `Tables` as read.
struct ReadTables {
    code: Vec<u8>,
    data: Vec<u8>,
    fn_bases: Vec<usize>,
    vtable_offsets: Vec<usize>,
    static_offsets: Vec<usize>,
    helpers: Vec<Option<usize>>,
    exc_helpers: Vec<Option<usize>>,
}

impl View for ReadTables {
    type V = Tables;

    closed spec fn view(&self) -> Tables {
        Tables {
            code: self.code@,
            data: self.data@,
            fn_bases: self.fn_bases@,
            vtable_offsets: self.vtable_offsets@,
            static_offsets: self.static_offsets@,
            helpers: self.helpers@,
            exc_helpers: self.exc_helpers@,
        }
    }
}

/// `Links` as read.
struct ReadLinks {
    import_names: Vec<(String, String)>,
    import_bases: Vec<usize>,
    exports: Vec<(String, usize, usize)>,
    relocs: Vec<Reloc>,
    heap_size: u64,
}

impl View for ReadLinks {
    type V = Links;

    closed spec fn view(&self) -> Links {
        Links {
            import_names: text_pairs(self.import_names@),
            import_bases: self.import_bases@,
            exports: export_views(self.exports@),
            relocs: self.relocs@,
            heap_size: self.heap_size,
        }
    }
}

/// `Tail` as read.
struct ReadTail {
    vtable_names: Vec<String>,
    static_names: Vec<String>,
    export_takes_receiver: Vec<bool>,
    init_fn: Option<usize>,
}

impl View for ReadTail {
    type V = Tail;

    closed spec fn view(&self) -> Tail {
        Tail {
            vtable_names: texts(self.vtable_names@),
            static_names: texts(self.static_names@),
            export_takes_receiver: self.export_takes_receiver@,
            init_fn: self.init_fn,
        }
    }
}

impl<'a> Reader<'a> {
    fn tables(&mut self) -> (r: Result<ReadTables, String>)
        requires
            old(self).ok(),
        ensures
            final(self).ok(),
            match p_tables(old(self).rest()) {
                Ok((x, rest)) => r matches Ok(t) && t@ == x && final(self).rest() == rest
                    && x.helpers.len() == 6 && x.exc_helpers.len() == 8,
                Err(m) => r matches Err(e) && e@ == m,
            },
    {
        proof {
            reveal(p_tables);
        }
        let code: Vec<u8> = match self.blob() {
            Ok(v) => v,
            Err(e) => {
                return Err(e);
            },
        };
        let data: Vec<u8> = match self.blob() {
            Ok(v) => v,
            Err(e) => {
                return Err(e);
            },
        };
        let fn_bases: Vec<usize> = match self.words() {
            Ok(v) => v,
            Err(e) => {
                return Err(e);
            },
        };
        let vtable_offsets: Vec<usize> = match self.words() {
            Ok(v) => v,
            Err(e) => {
                return Err(e);
            },
        };
        let static_offsets: Vec<usize> = match self.words() {
            Ok(v) => v,
            Err(e) => {
                return Err(e);
            },
        };
        let helpers: Vec<Option<usize>> = match self.flagged(6) {
            Ok(v) => v,
            Err(e) => {
                return Err(e);
            },
        };
        let exc_helpers: Vec<Option<usize>> = match self.flagged(8) {
            Ok(v) => v,
            Err(e) => {
                return Err(e);
            },
        };
        Ok(
            ReadTables {
                code,
                data,
                fn_bases,
                vtable_offsets,
                static_offsets,
                helpers,
                exc_helpers,
            },
        )
    }

    fn links(&mut self) -> (r: Result<ReadLinks, String>)
        requires
            old(self).ok(),
        ensures
            final(self).ok(),
            match p_links(old(self).rest()) {
                Ok((x, rest)) => r matches Ok(l) && l@ == x && final(self).rest() == rest,
                Err(m) => r matches Err(e) && e@ == m,
            },
    {
        proof {
            reveal(p_links);
        }
        let import_names: Vec<(String, String)> = match self.imports() {
            Ok(v) => v,
            Err(e) => {
                return Err(e);
            },
        };
        let import_bases: Vec<usize> = match self.words() {
            Ok(v) => v,
            Err(e) => {
                return Err(e);
            },
        };
        let exports: Vec<(String, usize, usize)> = match self.exports() {
            Ok(v) => v,
            Err(e) => {
                return Err(e);
            },
        };
        let relocs: Vec<Reloc> = match self.relocs() {
            Ok(v) => v,
            Err(e) => {
                return Err(e);
            },
        };
        let heap_size: u64 = match self.u64() {
            Ok(v) => v,
            Err(e) => {
                return Err(e);
            },
        };
        Ok(ReadLinks { import_names, import_bases, exports, relocs, heap_size })
    }

    fn tail(&mut self) -> (r: Result<ReadTail, String>)
        requires
            old(self).ok(),
        ensures
            final(self).ok(),
            match p_tail(old(self).rest()) {
                Ok((x, rest)) => r matches Ok(t) && t@ == x && final(self).rest() == rest,
                Err(m) => r matches Err(e) && e@ == m,
            },
    {
        proof {
            reveal(p_tail);
        }
        let vtable_names: Vec<String> = match self.trailing_texts() {
            Ok(v) => v,
            Err(e) => {
                return Err(e);
            },
        };
        let static_names: Vec<String> = match self.trailing_texts() {
            Ok(v) => v,
            Err(e) => {
                return Err(e);
            },
        };
        let export_takes_receiver: Vec<bool> = match self.trailing_truths() {
            Ok(v) => v,
            Err(e) => {
                return Err(e);
            },
        };
        let init_fn: Option<usize> = match self.init() {
            Ok(v) => v,
            Err(e) => {
                return Err(e);
            },
        };
        Ok(ReadTail { vtable_names, static_names, export_takes_receiver, init_fn })
    }
}

} // verus!
