//! Where each part of machine code stands in its serialized form, byte by
//! byte.
use crate::bytes::{le32, le64, lemma_u32_at, lemma_u64_at, u32_at, u64_at, wrap32};
use crate::mc_serialize::{
    e_blob, e_count, e_export, e_flagged, e_import, e_links, e_list, e_many, e_options, e_reloc,
    e_tables, e_tail, e_word, encoded, exc_helpers_of, flag_byte, helpers_of, serializable,
    shortened, sym_code, tail_sections, MAGIC,
};
use crate::target::{McView, Reloc, RelocKind, Section, Sym};
use vstd::prelude::*;

verus! {

/// The 64-bit number at `p`.
#[verifier::opaque]
pub open spec fn word_at(b: Seq<u8>, p: int) -> int {
    u64_at(b, p) as int
}

/// The 32-bit number at `p`.
#[verifier::opaque]
pub open spec fn half_at(b: Seq<u8>, p: int) -> int {
    u32_at(b, p) as int
}

// ---- one piece behind the other

proof fn lemma_next(b: Seq<u8>, p: int, x: Seq<u8>, rest: Seq<u8>)
    requires
        0 <= p <= b.len(),
        b.skip(p) == x + rest,
    ensures
        p + x.len() <= b.len(),
        b.skip((p + x.len()) as int) == rest,
        b.subrange(p, (p + x.len()) as int) == x,
{
    assert(b.skip(p).len() == b.len() - p);
    assert forall|i: int| 0 <= i < x.len() implies #[trigger] b[p + i] == x[i] by {
        assert(b.skip(p)[i] == (x + rest)[i]);
        assert(b.skip(p)[i] == b[i + p]);
    }
    assert(b.subrange(p, (p + x.len()) as int) =~= x);
    assert forall|i: int| 0 <= i < rest.len() implies #[trigger] b.skip((p + x.len()) as int)[i]
        == rest[i] by {
        let k = x.len() as int + i;
        assert(b.skip(p)[k] == (x + rest)[k]);
        assert(b.skip(p)[k] == b[k + p]);
    }
    assert(b.skip((p + x.len()) as int) =~= rest);
}

proof fn lemma_word_in(b: Seq<u8>, p: int, x: Seq<u8>, o: int, v: u64)
    requires
        0 <= p,
        p + x.len() <= b.len(),
        b.subrange(p, (p + x.len()) as int) == x,
        0 <= o,
        o + 8 <= x.len(),
        x.subrange(o, o + 8) == le64(v),
    ensures
        word_at(b, p + o) == v,
{
    reveal(word_at);
    assert(le64(v).len() == 8);
    assert(b.subrange(p + o, p + o + 8) =~= le64(v)) by {
        assert forall|j: int| 0 <= j < 8 implies b.subrange(p + o, p + o + 8)[j] == le64(v)[j] by {
            assert(x.subrange(o, o + 8)[j] == x[o + j]);
            assert(b.subrange(p, (p + x.len()) as int)[o + j] == b[p + (o + j)]);
        }
    }
    lemma_u64_at(b, p + o, v);
}

proof fn lemma_half_in(b: Seq<u8>, p: int, x: Seq<u8>, o: int, v: u32)
    requires
        0 <= p,
        p + x.len() <= b.len(),
        b.subrange(p, (p + x.len()) as int) == x,
        0 <= o,
        o + 4 <= x.len(),
        x.subrange(o, o + 4) == le32(v),
    ensures
        half_at(b, p + o) == v,
{
    reveal(half_at);
    assert(le32(v).len() == 4);
    assert(b.subrange(p + o, p + o + 4) =~= le32(v)) by {
        assert forall|j: int| 0 <= j < 4 implies b.subrange(p + o, p + o + 4)[j] == le32(v)[j] by {
            assert(x.subrange(o, o + 4)[j] == x[o + j]);
            assert(b.subrange(p, (p + x.len()) as int)[o + j] == b[p + (o + j)]);
        }
    }
    lemma_u32_at(b, p + o, v);
}

// ---- lists

proof fn lemma_words_len(xs: Seq<usize>)
    ensures
        e_many(e_word(), xs).len() == 8 * xs.len(),
    decreases xs.len(),
{
    if xs.len() > 0 {
        lemma_words_len(xs.drop_last());
        assert(le64(xs.last() as u64).len() == 8);
    }
}

proof fn lemma_words(xs: Seq<usize>, k: int)
    requires
        0 <= k < xs.len(),
    ensures
        e_many(e_word(), xs).len() == 8 * xs.len(),
        e_many(e_word(), xs).subrange(8 * k, 8 * k + 8) == le64(xs[k] as u64),
    decreases xs.len(),
{
    let before = e_many(e_word(), xs.drop_last());
    lemma_words_len(xs);
    lemma_words_len(xs.drop_last());
    assert(le64(xs.last() as u64).len() == 8);
    if k < xs.len() - 1 {
        lemma_words(xs.drop_last(), k);
        assert(e_many(e_word(), xs).subrange(8 * k, 8 * k + 8) =~= before.subrange(
            8 * k,
            8 * k + 8,
        ));
    } else {
        assert(e_many(e_word(), xs).subrange(8 * k, 8 * k + 8) =~= le64(xs[k] as u64));
    }
}

/// Whether a list of 64-bit numbers stands at `p`: a 32-bit count, and the
/// numbers one behind the other.
#[verifier::opaque]
pub open spec fn numbers_at(b: Seq<u8>, p: int, xs: Seq<usize>) -> bool {
    &&& half_at(b, p) == xs.len()
    &&& forall|k: int| 0 <= k < xs.len() ==> word_at(b, p + 4 + 8 * k) == #[trigger] xs[k]
}

proof fn lemma_list(b: Seq<u8>, p: int, xs: Seq<usize>)
    requires
        0 <= p,
        xs.len() <= u32::MAX,
        p + e_list(e_word(), xs).len() <= b.len(),
        b.subrange(p, (p + e_list(e_word(), xs).len()) as int) == e_list(e_word(), xs),
    ensures
        e_list(e_word(), xs).len() == 4 + 8 * xs.len(),
        numbers_at(b, p, xs),
{
    let x = e_list(e_word(), xs);
    let many = e_many(e_word(), xs);
    reveal(e_list);
    reveal(numbers_at);
    lemma_words_len(xs);
    assert(x == e_count(xs.len()) + many);
    assert(e_count(xs.len()).len() == 4);
    assert(x.subrange(0, 4) =~= le32(xs.len() as u32)) by {
        assert(wrap32(xs.len() as int) == xs.len() as u32);
    }
    lemma_half_in(b, p, x, 0, xs.len() as u32);
    assert forall|k: int| 0 <= k < xs.len() implies word_at(b, p + 4 + 8 * k) == #[trigger] xs[k] by {
        lemma_words(xs, k);
        assert(x.subrange(4 + 8 * k, 4 + 8 * k + 8) =~= many.subrange(8 * k, 8 * k + 8));
        lemma_word_in(b, p, x, 4 + 8 * k, xs[k] as u64);
    }
}

// ---- code, data and tables

/// Where the lists behind code and data start.
pub open spec fn bases_at(mc: McView) -> int {
    20 + mc.code.len() as int + mc.data.len()
}

proof fn lemma_blob(x: Seq<u8>)
    requires
        x.len() <= u64::MAX,
    ensures
        e_blob(x).len() == 8 + x.len(),
        e_blob(x).subrange(0, 8) == le64(x.len() as u64),
        e_blob(x).subrange(8, (8 + x.len()) as int) == x,
{
    reveal(e_blob);
    assert(le64(x.len() as u64).len() == 8);
    assert(e_blob(x).subrange(0, 8) =~= le64(x.len() as u64));
    assert(e_blob(x).subrange(8, (8 + x.len()) as int) =~= x);
}

proof fn lemma_blob_at(b: Seq<u8>, p: int, x: Seq<u8>)
    requires
        0 <= p,
        x.len() <= u64::MAX,
        p + e_blob(x).len() <= b.len(),
        b.subrange(p, (p + e_blob(x).len()) as int) == e_blob(x),
    ensures
        e_blob(x).len() == 8 + x.len(),
        word_at(b, p) == x.len(),
        b.subrange(p + 8, (p + 8 + x.len()) as int) == x,
{
    lemma_blob(x);
    lemma_word_in(b, p, e_blob(x), 0, x.len() as u64);
    assert forall|i: int| 0 <= i < x.len() implies #[trigger] b[p + 8 + i] == x[i] by {
        assert(b.subrange(p, (p + e_blob(x).len()) as int)[8 + i] == b[p + (8 + i)]);
        assert(e_blob(x).subrange(8, (8 + x.len()) as int)[i] == x[i]);
    }
    assert(b.subrange(p + 8, (p + 8 + x.len()) as int) =~= x);
}

/// Where the pieces of the first part are.
proof fn lemma_pieces(mc: McView) -> (at: (int, int, int, int, int, int, int))
    requires
        serializable(mc),
    ensures
        ({
            let b = encoded(mc);
            let helpers = helpers_of(mc);
            let exc = exc_helpers_of(mc);
            &&& half_at(b, 0) == MAGIC
            &&& at.0 == 4
            &&& at.1 == at.0 + e_blob(mc.code).len()
            &&& at.2 == at.1 + e_blob(mc.data).len()
            &&& at.3 == at.2 + e_list(e_word(), mc.fn_bases).len()
            &&& at.4 == at.3 + e_list(e_word(), mc.vtable_offsets).len()
            &&& at.5 == at.4 + e_list(e_word(), mc.static_offsets).len()
            &&& at.6 == at.5 + e_flagged(helpers).len()
            &&& at.6 + e_flagged(exc).len() <= b.len()
            &&& b.subrange(at.0, at.1) == e_blob(mc.code)
            &&& b.subrange(at.1, at.2) == e_blob(mc.data)
            &&& b.subrange(at.2, at.3) == e_list(e_word(), mc.fn_bases)
            &&& b.subrange(at.3, at.4) == e_list(e_word(), mc.vtable_offsets)
            &&& b.subrange(at.4, at.5) == e_list(e_word(), mc.static_offsets)
            &&& b.subrange(at.5, at.6) == e_flagged(helpers)
            &&& b.subrange(at.6, (at.6 + e_flagged(exc).len()) as int) == e_flagged(exc)
        }),
{
    let b = encoded(mc);
    let helpers = helpers_of(mc);
    let exc = exc_helpers_of(mc);
    let end = e_links(mc) + e_tail(mc);
    let x = e_flagged(exc) + end;
    let h = e_flagged(helpers) + x;
    let st = e_list(e_word(), mc.static_offsets) + h;
    let v = e_list(e_word(), mc.vtable_offsets) + st;
    let f = e_list(e_word(), mc.fn_bases) + v;
    let d = e_blob(mc.data) + f;
    let c = e_blob(mc.code) + d;
    reveal(e_tables);
    assert(e_tables(mc) + end =~= c);
    assert(b =~= le32(MAGIC) + c);
    assert(b.skip(0) =~= b);
    assert(le32(MAGIC).len() == 4);
    lemma_next(b, 0, le32(MAGIC), c);
    assert(le32(MAGIC).subrange(0, 4) =~= le32(MAGIC));
    lemma_half_in(b, 0, le32(MAGIC), 0, MAGIC);
    lemma_next(b, 4, e_blob(mc.code), d);
    let p1 = (4 + e_blob(mc.code).len()) as int;
    lemma_next(b, p1, e_blob(mc.data), f);
    let p2 = (p1 + e_blob(mc.data).len()) as int;
    lemma_next(b, p2, e_list(e_word(), mc.fn_bases), v);
    let p3 = (p2 + e_list(e_word(), mc.fn_bases).len()) as int;
    lemma_next(b, p3, e_list(e_word(), mc.vtable_offsets), st);
    let p4 = (p3 + e_list(e_word(), mc.vtable_offsets).len()) as int;
    lemma_next(b, p4, e_list(e_word(), mc.static_offsets), h);
    let p5 = (p4 + e_list(e_word(), mc.static_offsets).len()) as int;
    lemma_next(b, p5, e_flagged(helpers), x);
    let p6 = (p5 + e_flagged(helpers).len()) as int;
    lemma_next(b, p6, e_flagged(exc), end);
    (4, p1, p2, p3, p4, p5, p6)
}

/// A buffer starts with its mark, the code and the data, each behind its
/// length, and the lists of where functions, vtable rows and static fields
/// are, each behind its count.
pub proof fn tables_come_first(mc: McView)
    requires
        serializable(mc),
    ensures
        ({
            let b = encoded(mc);
            let c = mc.code.len() as int;
            let p = bases_at(mc);
            let q = p + 4 + 8 * mc.fn_bases.len();
            let r = q + 4 + 8 * mc.vtable_offsets.len();
            &&& half_at(b, 0) == 0x524D_4331
            &&& word_at(b, 4) == c
            &&& b.subrange(12, 12 + c) == mc.code
            &&& word_at(b, 12 + c) == mc.data.len()
            &&& b.subrange(20 + c, p) == mc.data
            &&& numbers_at(b, p, mc.fn_bases)
            &&& numbers_at(b, q, mc.vtable_offsets)
            &&& numbers_at(b, r, mc.static_offsets)
        }),
{
    let b = encoded(mc);
    let at = lemma_pieces(mc);
    lemma_blob_at(b, at.0, mc.code);
    lemma_blob_at(b, at.1, mc.data);
    lemma_list(b, at.2, mc.fn_bases);
    lemma_list(b, at.3, mc.vtable_offsets);
    lemma_list(b, at.4, mc.static_offsets);
}

// ---- offsets that may be missing

/// How many of the first `n` are present.
pub open spec fn present(xs: Seq<Option<usize>>, n: int) -> int
    decreases n,
{
    if n <= 0 {
        0
    } else {
        present(xs, n - 1) + if xs[n - 1] is Some {
            1int
        } else {
            0
        }
    }
}

/// `2^n`.
pub open spec fn bit(n: int) -> int
    decreases n,
{
    if n <= 0 {
        1
    } else {
        2 * bit(n - 1)
    }
}

/// Whether a byte of flags stands at `p`, bit `k` for number `k`, and behind
/// it, as 64-bit numbers, those that are present.
#[verifier::opaque]
pub open spec fn flagged_at(b: Seq<u8>, p: int, xs: Seq<Option<usize>>) -> bool {
    forall|k: int|
        0 <= k < xs.len() ==> {
            &&& b[p] as int / bit(k) % 2 == if #[trigger] xs[k] is Some {
                1int
            } else {
                0
            }
            &&& xs[k] matches Some(v) ==> word_at(b, p + 1 + 8 * present(xs, k)) == v
        }
}

proof fn lemma_bit(n: int)
    ensures
        bit(n) > 0,
    decreases n,
{
    if n > 0 {
        lemma_bit(n - 1);
    }
}

proof fn lemma_flag_byte(xs: Seq<Option<usize>>)
    ensures
        0 <= flag_byte(xs) < bit(xs.len() as int),
        xs.len() <= 8 ==> bit(xs.len() as int) <= 256,
    decreases xs.len(),
{
    if xs.len() > 0 {
        lemma_flag_byte(xs.skip(1));
        reveal_with_fuel(bit, 9);
    }
}

proof fn lemma_flag(xs: Seq<Option<usize>>, k: int)
    requires
        0 <= k < xs.len(),
    ensures
        flag_byte(xs) / bit(k) % 2 == if xs[k] is Some {
            1int
        } else {
            0
        },
    decreases xs.len(),
{
    let rest = flag_byte(xs.skip(1));
    lemma_flag_byte(xs.skip(1));
    if k > 0 {
        lemma_flag(xs.skip(1), k - 1);
        lemma_bit(k - 1);
        let d = bit(k - 1);
        let low = flag_byte(xs) - 2 * rest;
        assert(low == 0 || low == 1);
        assert(flag_byte(xs) / (2 * d) == rest / d) by (nonlinear_arith)
            requires
                flag_byte(xs) == 2 * rest + low,
                low == 0 || low == 1,
                d > 0,
                rest >= 0,
        ;
        assert(xs.skip(1)[k - 1] == xs[k]);
    } else {
        assert(flag_byte(xs) / 1 == flag_byte(xs));
    }
}

proof fn lemma_present(xs: Seq<Option<usize>>, n: int)
    ensures
        0 <= present(xs, n),
    decreases n,
{
    if n > 0 {
        lemma_present(xs, n - 1);
    }
}

proof fn lemma_present_front(xs: Seq<Option<usize>>, n: int)
    requires
        0 <= n < xs.len(),
    ensures
        present(xs.drop_last(), n) == present(xs, n),
    decreases n,
{
    if n > 0 {
        lemma_present_front(xs, n - 1);
    }
}

proof fn lemma_options_len(xs: Seq<Option<usize>>)
    ensures
        e_options(xs).len() == 8 * present(xs, xs.len() as int),
    decreases xs.len(),
{
    if xs.len() > 0 {
        lemma_options_len(xs.drop_last());
        lemma_present_front(xs, xs.len() - 1);
        if let Some(x) = xs.last() {
            assert(le64(x as u64).len() == 8);
        }
    }
}

proof fn lemma_options(xs: Seq<Option<usize>>, k: int)
    requires
        0 <= k < xs.len(),
        xs[k] is Some,
    ensures
        8 * present(xs, k) + 8 <= e_options(xs).len(),
        e_options(xs).subrange(8 * present(xs, k), 8 * present(xs, k) + 8) == le64(
            xs[k]->0 as u64,
        ),
    decreases xs.len(),
{
    let before = e_options(xs.drop_last());
    let o = 8 * present(xs, k);
    lemma_present(xs, k);
    lemma_present_front(xs, k);
    lemma_options_len(xs.drop_last());
    lemma_present_front(xs, xs.len() - 1);
    if k < xs.len() - 1 {
        lemma_options(xs.drop_last(), k);
        assert(e_options(xs).subrange(o, o + 8) =~= before.subrange(o, o + 8));
    } else {
        let w = le64(xs[k]->0 as u64);
        assert(w.len() == 8);
        assert(e_options(xs) == before + w);
        assert(e_options(xs).subrange(o, o + 8) =~= w);
    }
}

proof fn lemma_flagged(b: Seq<u8>, p: int, xs: Seq<Option<usize>>)
    requires
        0 <= p,
        xs.len() <= 8,
        p + e_flagged(xs).len() <= b.len(),
        b.subrange(p, (p + e_flagged(xs).len()) as int) == e_flagged(xs),
    ensures
        e_flagged(xs).len() == 1 + 8 * present(xs, xs.len() as int),
        flagged_at(b, p, xs),
{
    let x = e_flagged(xs);
    let o = e_options(xs);
    reveal(e_flagged);
    reveal(flagged_at);
    lemma_options_len(xs);
    lemma_flag_byte(xs);
    assert(x == seq![flag_byte(xs) as u8] + o);
    assert(b.subrange(p, (p + x.len()) as int)[0] == b[p]);
    assert(b[p] == flag_byte(xs));
    assert forall|k: int| 0 <= k < xs.len() implies {
        &&& b[p] as int / bit(k) % 2 == if #[trigger] xs[k] is Some {
            1int
        } else {
            0
        }
        &&& xs[k] matches Some(v) ==> word_at(b, p + 1 + 8 * present(xs, k)) == v
    } by {
        lemma_flag(xs, k);
        if let Some(v) = xs[k] {
            lemma_options(xs, k);
            lemma_present(xs, k);
            let at = 1 + 8 * present(xs, k);
            assert(x.subrange(at, at + 8) =~= o.subrange(at - 1, at + 7));
            lemma_word_in(b, p, x, at, v as u64);
        }
    }
}

/// Behind the lists come the offsets of the runtime routines, and then those
/// of the exception runtime, of its state and of the slot for the stack
/// pointer, each group behind a byte that says which are present.
#[verifier::spinoff_prover]
pub proof fn routines_follow(mc: McView)
    requires
        serializable(mc),
    ensures
        ({
            let b = encoded(mc);
            let p = bases_at(mc) + 12 + 8 * (mc.fn_bases.len() + mc.vtable_offsets.len()
                + mc.static_offsets.len());
            let first = seq![
                mc.helper_itoa,
                mc.helper_itoa_err,
                mc.helper_scan_int,
                mc.helper_retain,
                mc.helper_release,
                mc.helper_alloc,
            ];
            let second = seq![
                mc.helper_exc_enter,
                mc.helper_exc_pop,
                mc.helper_exc_throw,
                mc.helper_exc_rethrow,
                mc.helper_exc_load,
                mc.helper_exc_clear,
                mc.exc_state_offset,
                mc.helper_argv,
            ];
            &&& flagged_at(b, p, first)
            &&& flagged_at(b, p + 1 + 8 * present(first, 6), second)
        }),
{
    let b = encoded(mc);
    let at = lemma_pieces(mc);
    lemma_blob_at(b, at.0, mc.code);
    lemma_blob_at(b, at.1, mc.data);
    lemma_list(b, at.2, mc.fn_bases);
    lemma_list(b, at.3, mc.vtable_offsets);
    lemma_list(b, at.4, mc.static_offsets);
    lemma_flagged(b, at.5, helpers_of(mc));
    lemma_flagged(b, at.6, exc_helpers_of(mc));
}

// ---- relocations

/// The number that stands for what a symbol is.
pub open spec fn tag_of(s: Sym) -> int {
    match s {
        Sym::Fn(_) => 0,
        Sym::String(_) => 1,
        Sym::VtableOff(_) => 2,
        Sym::HeapBase => 3,
        Sym::HelperItoa => 4,
        Sym::HelperItoaErr => 5,
        Sym::HelperScanInt => 6,
        Sym::HelperRetain => 7,
        Sym::HelperRelease => 8,
        Sym::HelperAlloc => 9,
        Sym::Import(_) => 10,
        Sym::Name(_) => 11,
        Sym::Static(_) => 12,
        Sym::HelperExcEnter => 13,
        Sym::HelperExcPop => 14,
        Sym::HelperExcThrow => 15,
        Sym::HelperExcRethrow => 16,
        Sym::HelperExcLoad => 17,
        Sym::HelperExcClear => 18,
        Sym::ExcState(_) => 19,
        Sym::ArgvRsp => 20,
    }
}

/// The index or offset that a symbol has, or zero.
pub open spec fn argument_of(s: Sym) -> int {
    match s {
        Sym::Fn(i) => i as int,
        Sym::String(i) => i as int,
        Sym::VtableOff(i) => i as int,
        Sym::Import(i) => i as int,
        Sym::Name(i) => i as int,
        Sym::Static(i) => i as int,
        Sym::ExcState(i) => i as int,
        _ => 0,
    }
}

/// Whether the record of `r` stands at `p`: a byte for its kind, one for its
/// section, the site, the number of its symbol's kind, and its argument.
#[verifier::opaque]
pub open spec fn record_at(b: Seq<u8>, p: int, r: Reloc) -> bool {
    &&& b[p] == if r.kind == RelocKind::Abs64 {
        0
    } else {
        1int
    }
    &&& b[p + 1] == if r.section == Section::Code {
        0
    } else {
        1int
    }
    &&& word_at(b, p + 2) == r.site
    &&& b[p + 10] == tag_of(r.sym)
    &&& word_at(b, p + 11) == argument_of(r.sym)
}

proof fn lemma_record(r: Reloc)
    ensures
        ({
            let e = e_reloc()(r);
            &&& e.len() == 19
            &&& e[0] == if r.kind == RelocKind::Abs64 {
                0
            } else {
                1int
            }
            &&& e[1] == if r.section == Section::Code {
                0
            } else {
                1int
            }
            &&& e.subrange(2, 10) == le64(r.site as u64)
            &&& e[10] == tag_of(r.sym)
            &&& e.subrange(11, 19) == le64(argument_of(r.sym) as u64)
        }),
{
    let e = e_reloc()(r);
    assert(le64(r.site as u64).len() == 8);
    assert(le64(sym_code(r.sym).1).len() == 8);
    assert(sym_code(r.sym).1 == argument_of(r.sym) as u64);
    assert(e.subrange(2, 10) =~= le64(r.site as u64));
    assert(e.subrange(11, 19) =~= le64(sym_code(r.sym).1));
}

proof fn lemma_records_len(rs: Seq<Reloc>)
    ensures
        e_many(e_reloc(), rs).len() == 19 * rs.len(),
    decreases rs.len(),
{
    if rs.len() > 0 {
        lemma_records_len(rs.drop_last());
        lemma_record(rs.last());
    }
}

proof fn lemma_records(rs: Seq<Reloc>, k: int)
    requires
        0 <= k < rs.len(),
    ensures
        e_many(e_reloc(), rs).subrange(19 * k, 19 * k + 19) == e_reloc()(rs[k]),
    decreases rs.len(),
{
    let before = e_many(e_reloc(), rs.drop_last());
    let last = e_reloc()(rs.last());
    lemma_records_len(rs.drop_last());
    lemma_record(rs.last());
    assert(e_many(e_reloc(), rs) == before + last);
    if k < rs.len() - 1 {
        lemma_records(rs.drop_last(), k);
        lemma_early(before, last, 19 * k, 19);
    } else {
        lemma_late(before, last);
    }
}

proof fn lemma_early(x: Seq<u8>, y: Seq<u8>, o: int, w: int)
    requires
        0 <= o,
        0 <= w,
        o + w <= x.len(),
    ensures
        (x + y).subrange(o, o + w) == x.subrange(o, o + w),
{
    assert((x + y).subrange(o, o + w) =~= x.subrange(o, o + w));
}

proof fn lemma_late(x: Seq<u8>, y: Seq<u8>)
    ensures
        (x + y).subrange(x.len() as int, (x.len() + y.len()) as int) == y,
{
    assert((x + y).subrange(x.len() as int, (x.len() + y.len()) as int) =~= y);
}

proof fn lemma_record_at(b: Seq<u8>, p: int, r: Reloc)
    requires
        0 <= p,
        p + 19 <= b.len(),
        b.subrange(p, p + 19) == e_reloc()(r),
    ensures
        record_at(b, p, r),
{
    let e = e_reloc()(r);
    reveal(record_at);
    lemma_record(r);
    assert(b.subrange(p, p + 19)[0] == b[p]);
    assert(b.subrange(p, p + 19)[1] == b[p + 1]);
    assert(b.subrange(p, p + 19)[10] == b[p + 10]);
    lemma_word_in(b, p, e, 2, r.site as u64);
    lemma_word_in(b, p, e, 11, argument_of(r.sym) as u64);
}

/// A buffer has its relocations, one record of 19 bytes each behind their
/// count, right before the heap size, with which the sections end that cannot
/// be missing.
#[verifier::spinoff_prover]
pub proof fn relocations_come_before_the_heap_size(mc: McView, k: int)
    requires
        serializable(mc),
        0 <= k < mc.relocs.len(),
    ensures
        ({
            let b = encoded(mc);
            let n = mc.relocs.len() as int;
            let end = shortened(mc, 0).len() as int;
            &&& end <= b.len()
            &&& word_at(b, end - 8) == mc.heap_size
            &&& half_at(b, end - 12 - 19 * n) == n
            &&& record_at(b, end - 8 - 19 * (n - k), mc.relocs[k])
        }),
{
    let b = encoded(mc);
    let n = mc.relocs.len() as int;
    let many = e_many(e_reloc(), mc.relocs);
    let tail = e_tail(mc);
    lemma_records_len(mc.relocs);
    lemma_records(mc.relocs, k);
    let front = lemma_front_of(mc);
    let list = e_list(e_reloc(), mc.relocs);
    assert(list == le32(n as u32) + many) by {
        reveal(e_list);
        assert(wrap32(n) == n as u32);
    }
    let pre = le32(MAGIC) + e_tables(mc) + front;
    let heap = le64(mc.heap_size);
    assert(heap.len() == 8);
    lemma_whole(le32(MAGIC), e_tables(mc), front, list, heap, tail);
    assert(b == pre + (list + (heap + tail)));
    assert(tail_sections(mc, 0) =~= Seq::<u8>::empty());
    lemma_whole(le32(MAGIC), e_tables(mc), front, list, heap, tail_sections(mc, 0));
    assert(shortened(mc, 0) == pre + (list + (heap + tail_sections(mc, 0))));
    lemma_around(b, pre, many, heap, tail, n, mc.heap_size);
    let p = (pre.len() + 4 + 19 * k) as int;
    lemma_inner(b, (pre.len() + 4) as int, many, 19 * k, 19);
    lemma_record_at(b, p, mc.relocs[k]);
}

proof fn lemma_whole(
    mark: Seq<u8>,
    tables: Seq<u8>,
    front: Seq<u8>,
    list: Seq<u8>,
    heap: Seq<u8>,
    tail: Seq<u8>,
)
    ensures
        mark + (tables + ((front + (list + heap)) + tail)) == (mark + tables + front) + (list + (heap
            + tail)),
{
    assert(mark + (tables + ((front + (list + heap)) + tail)) =~= (mark + tables + front) + (list
        + (heap + tail)));
}

proof fn lemma_inner(b: Seq<u8>, p: int, x: Seq<u8>, o: int, w: int)
    requires
        0 <= p,
        p + x.len() <= b.len(),
        b.subrange(p, (p + x.len()) as int) == x,
        0 <= o,
        0 <= w,
        o + w <= x.len(),
    ensures
        b.subrange(p + o, p + o + w) == x.subrange(o, o + w),
{
    let one = b.subrange(p + o, p + o + w);
    let own = x.subrange(o, o + w);
    assert forall|j: int| 0 <= j < w implies #[trigger] one[j] == own[j] by {
        assert(b.subrange(p, (p + x.len()) as int)[o + j] == b[p + (o + j)]);
    }
    assert(one =~= own);
}

proof fn lemma_around(
    b: Seq<u8>,
    pre: Seq<u8>,
    many: Seq<u8>,
    heap: Seq<u8>,
    tail: Seq<u8>,
    n: int,
    size: u64,
)
    requires
        0 <= n <= u32::MAX,
        many.len() == 19 * n,
        heap == le64(size),
        b == pre + ((le32(n as u32) + many) + (heap + tail)),
    ensures
        pre.len() + 4 + 19 * n + 8 <= b.len(),
        half_at(b, pre.len() as int) == n,
        b.subrange((pre.len() + 4) as int, (pre.len() + 4 + 19 * n) as int) == many,
        word_at(b, (pre.len() + 4 + 19 * n) as int) == size,
{
    let count = le32(n as u32);
    let p = pre.len() as int;
    assert(count.len() == 4);
    assert(heap.len() == 8);
    assert(b.skip(0) =~= b);
    lemma_next(b, 0, pre, (count + many) + (heap + tail));
    assert((count + many) + (heap + tail) =~= count + (many + (heap + tail)));
    lemma_next(b, p, count, many + (heap + tail));
    assert(count.subrange(0, 4) =~= count);
    lemma_half_in(b, p, count, 0, n as u32);
    lemma_next(b, p + 4, many, heap + tail);
    lemma_next(b, p + 4 + 19 * n, heap, tail);
    assert(heap.subrange(0, 8) =~= heap);
    lemma_word_in(b, p + 4 + 19 * n, heap, 0, size);
}

/// What stands in the links before the relocations.
proof fn lemma_front_of(mc: McView) -> (front: Seq<u8>)
    ensures
        e_links(mc) == front + (e_list(e_reloc(), mc.relocs) + le64(mc.heap_size)),
{
    reveal(e_links);
    let a = e_list(e_import(), mc.import_names);
    let c = e_list(e_word(), mc.import_bases);
    let x = e_list(e_export(), mc.exports);
    let r = e_list(e_reloc(), mc.relocs) + le64(mc.heap_size);
    assert(e_links(mc) =~= (a + c + x) + r);
    a + c + x
}

} // verus!
