//! What a dynamic loader finds in a shared object: the names of its symbols,
//! and the hash table that leads to them.
use crate::bytes::{le16, le32, lemma_u32_at, u32_at, wrap32};
use crate::target::McView;
use crate::x86::shared::{dyn_tag, dyn_value, lemma_dynamic, lemma_symbol};
use crate::x86::shlib::{
    dynstr, dynsym, elf_hash, hash_bytes, hash_step, hash_tables, image_holds_its_pieces,
    image_of, layout_of, le32s, lemma_dynsym_len, lemma_entries_grow, lemma_layout, lemma_slots,
    shared_ready, sym_entry, sym_name, symbols, windows_inside,
};
use vstd::prelude::*;
use vstd::utf8::encode_utf8;

verus! {

/// Where the entry of dynamic symbol `k` is, the null symbol not counted.
pub open spec fn symbol_at(img: Seq<u8>, k: int) -> int {
    dyn_value(img, 2) + 24 * (k + 1)
}

/// Where among the names that of the symbol whose entry is at `at` starts.
#[verifier::opaque]
pub open spec fn st_name(img: Seq<u8>, at: int) -> int {
    u32_at(img, at) as int
}

/// Where the name of dynamic symbol `k` is.
pub open spec fn name_at(img: Seq<u8>, k: int) -> int {
    dyn_value(img, 1) + st_name(img, symbol_at(img, k))
}

/// Whether the bytes of `name`, with a zero behind them, stand at `at`.
pub open spec fn named(img: Seq<u8>, at: int, name: Seq<u8>) -> bool {
    &&& at + name.len() < img.len()
    &&& forall|j: int| 0 <= j < name.len() ==> img[at + j] == #[trigger] name[j]
    &&& img[at + name.len()] == 0
}

/// The names of the symbols: the exports by their own, the vtable rows by the
/// paths of their classes, the static fields by theirs.
pub open spec fn spelled(mc: McView, k: int) -> Seq<char> {
    let e = mc.exports.len() as int;
    let v = mc.vtable_names.len() as int;
    if k < e {
        mc.exports[k].0
    } else if k < e + v {
        mc.vtable_names[k - e] + "::__vtable"@
    } else {
        mc.static_names[k - e - v]
    }
}

proof fn lemma_names(mc: McView, k: int, n: int)
    requires
        0 <= k < n,
    ensures
        ({
            let at = dynstr(mc, k).len() as int;
            let name = sym_name(mc, k);
            &&& at + name.len() < dynstr(mc, n).len()
            &&& forall|j: int|
                0 <= j < name.len() ==> dynstr(mc, n)[at + j] == #[trigger] name[j]
            &&& dynstr(mc, n)[(at + name.len()) as int] == 0
        }),
    decreases n,
{
    let at = dynstr(mc, k).len() as int;
    let name = sym_name(mc, k);
    let d = dynstr(mc, n);
    let before = dynstr(mc, n - 1);
    if k < n - 1 {
        lemma_names(mc, k, n - 1);
        assert forall|j: int| 0 <= j < name.len() implies d[at + j] == #[trigger] name[j] by {
            assert(before[at + j] == name[j]);
        }
    }
}

proof fn lemma_symbol_fields(mc: McView, data_at: int, k: int)
    ensures
        sym_entry(mc, data_at, k).len() == 24,
        sym_entry(mc, data_at, k).subrange(0, 4) == le32(wrap32(dynstr(mc, k).len() as int)),
        k < mc.exports.len() ==> sym_entry(mc, data_at, k)[4] == 0x12,
        k >= mc.exports.len() ==> sym_entry(mc, data_at, k)[4] == 0x11,
{
    let e = sym_entry(mc, data_at, k);
    assert(le16(1).len() == 2 && le16(2).len() == 2);
    assert(e.subrange(0, 4) =~= le32(wrap32(dynstr(mc, k).len() as int)));
}

proof fn lemma_name_word(img: Seq<u8>, start: int, d: Seq<u8>, at: int, e: Seq<u8>, v: u32)
    requires
        0 <= start,
        start + d.len() <= img.len(),
        img.subrange(start, start + d.len()) == d,
        0 <= at,
        at + 24 <= d.len(),
        d.subrange(at, at + 24) == e,
        e.subrange(0, 4) == le32(v),
    ensures
        st_name(img, start + at) == v,
        img[start + at + 4] == e[4],
{
    reveal(st_name);
    assert(img.subrange(start + at, start + at + 4) =~= le32(v)) by {
        assert forall|j: int| 0 <= j < 4 implies img.subrange(start + at, start + at + 4)[j]
            == le32(v)[j] by {
            assert(e.subrange(0, 4)[j] == e[j]);
            assert(d.subrange(at, at + 24)[j] == d[at + j]);
            assert(img.subrange(start, start + d.len())[at + j] == img[start + (at + j)]);
        }
    }
    lemma_u32_at(img, start + at, v);
    assert(d.subrange(at, at + 24)[4] == d[at + 4]);
    assert(img.subrange(start, start + d.len())[at + 4] == img[start + (at + 4)]);
}

/// Every symbol has its name in the image, with a zero behind it, where its
/// entry says; and its entry says whether it is a function or an object.
#[verifier::spinoff_prover]
#[verifier::rlimit(40)]
pub proof fn symbols_have_their_names(mc: McView, version: u16, k: int)
    requires
        shared_ready(mc),
        windows_inside(mc),
        0 <= k < symbols(mc),
        image_of(mc, version).len() <= u32::MAX,
    ensures
        ({
            let img = image_of(mc, version);
            let name = encode_utf8(spelled(mc, k));
            &&& dyn_tag(img, 1) == 5
            &&& dyn_tag(img, 2) == 6
            &&& named(img, name_at(img, k), name)
            &&& img[symbol_at(img, k) + 4] == if k < mc.exports.len() {
                0x12u8
            } else {
                0x11u8
            }
        }),
{
    let img = image_of(mc, version);
    let n = symbols(mc);
    let name = sym_name(mc, k);
    let at = lemma_stand(mc, version);
    let data_at = layout_of(mc).data_at;
    lemma_symbol(mc, data_at, k, n);
    lemma_symbol_fields(mc, data_at, k);
    lemma_names(mc, k, n);
    let off = dynstr(mc, k).len() as int;
    lemma_name_word(
        img,
        at.1,
        dynsym(mc, data_at, n),
        24 * (k + 1),
        sym_entry(mc, data_at, k),
        wrap32(off),
    );
    lemma_text(img, at.0, dynstr(mc, n), off, name);
    assert(name == encode_utf8(spelled(mc, k)));
    assert(wrap32(off) == off);
}

/// Where the names, the symbols and the hash table stand in the image.
#[verifier::spinoff_prover]
#[verifier::rlimit(40)]
proof fn lemma_stand(mc: McView, version: u16) -> (at: (int, int, int))
    requires
        shared_ready(mc),
        windows_inside(mc),
    ensures
        ({
            let img = image_of(mc, version);
            let n = symbols(mc);
            let names = dynstr(mc, n);
            let d = dynsym(mc, layout_of(mc).data_at, n);
            let h = hash_bytes(mc);
            &&& 0 <= at.0 && at.0 + names.len() <= img.len()
            &&& img.subrange(at.0, at.0 + names.len()) == names
            &&& 0 <= at.1 && at.1 + d.len() <= img.len()
            &&& img.subrange(at.1, at.1 + d.len()) == d
            &&& d.len() == 24 * (n + 1)
            &&& 0 <= at.2 && at.2 + 8 * (n + 1) + 8 <= img.len()
            &&& img.subrange(at.2, at.2 + 8 * (n + 1) + 8) == h
            &&& dyn_tag(img, 0) == 4 && dyn_value(img, 0) == at.2
            &&& dyn_tag(img, 1) == 5 && dyn_value(img, 1) == at.0
            &&& dyn_tag(img, 2) == 6 && dyn_value(img, 2) == at.1
        }),
{
    let l = layout_of(mc);
    let n = symbols(mc);
    lemma_dynamic(mc, version);
    image_holds_its_pieces(mc, version);
    lemma_layout(mc);
    lemma_entries_grow(mc, 0, mc.exports.len() as int);
    lemma_slots(mc, 0, mc.relocs.len() as int);
    lemma_dynsym_len(mc, l.data_at, n);
    (l.dynstr_start, l.dynsym_start, l.hash_start)
}

proof fn lemma_text(img: Seq<u8>, start: int, d: Seq<u8>, off: int, name: Seq<u8>)
    requires
        0 <= start,
        start + d.len() <= img.len(),
        img.subrange(start, start + d.len()) == d,
        0 <= off,
        off + name.len() < d.len(),
        forall|j: int| 0 <= j < name.len() ==> d[off + j] == #[trigger] name[j],
        d[off + name.len()] == 0,
    ensures
        named(img, start + off, name),
{
    assert forall|j: int| 0 <= j < name.len() implies img[start + off + j]
        == #[trigger] name[j] by {
        assert(img.subrange(start, start + d.len())[off + j] == img[start + (off + j)]);
    }
    assert(img.subrange(start, start + d.len())[off + name.len()] == img[start + (off
        + name.len())]);
}

// ---- hashes

proof fn lemma_hash_small(name: Seq<u8>)
    ensures
        elf_hash(name) < 0x1000_0000,
    decreases name.len(),
{
    if name.len() > 0 {
        let h = elf_hash(name.drop_last());
        let t = wrap32(h * 16 + name.last());
        let low = (t % 0x1000_0000) as u32;
        let top = (t / 0x1000_0000 * 16) as u32;
        assert(low < 0x1000_0000 && top < 0x1000_0000);
        assert(low ^ top < 0x1000_0000) by (bit_vector)
            requires
                low < 0x1000_0000u32,
                top < 0x1000_0000u32,
        ;
    }
}

proof fn lemma_fold(t: u32)
    ensures
        ((t % 0x1000_0000) as u32) ^ ((t / 0x1000_0000 * 16) as u32) == (t ^ ((t & 0xF000_0000u32)
            >> 24u32)) & !(t & 0xF000_0000u32),
{
    assert(((t % 0x1000_0000u32) as u32) ^ ((t / 0x1000_0000u32 * 16) as u32) == (t ^ ((t
        & 0xF000_0000u32) >> 24u32)) & !(t & 0xF000_0000u32)) by (bit_vector);
}

proof fn lemma_shift(h: u32)
    requires
        h < 0x1000_0000,
    ensures
        h << 4u32 == h * 16,
{
    assert(h << 4u32 == h * 16) by (bit_vector)
        requires
            h < 0x1000_0000u32,
    ;
}

/// The hash is that of the System V interface: of no bytes it is 0, and with
/// one byte more, `h = (h << 4) + b`, where the top four bits are folded into
/// the bits from 4 on, and cleared.
pub proof fn hash_is_that_of_the_loader(name: Seq<u8>, b: u8)
    ensures
        elf_hash(Seq::empty()) == 0,
        elf_hash(name) < 0x1000_0000,
        ({
            let h = elf_hash(name);
            let t = wrap32((h << 4u32) + b);
            let g = t & 0xF000_0000u32;
            elf_hash(name.push(b)) == (t ^ (g >> 24u32)) & !g
        }),
{
    let h = elf_hash(name);
    lemma_hash_small(name);
    lemma_shift(h);
    let t = wrap32(h * 16 + b);
    lemma_fold(t);
    assert(name.push(b).drop_last() =~= name);
    assert(elf_hash(name.push(b)) == hash_step(h, b));
}

proof fn lemma_words(xs: Seq<u32>, i: int)
    requires
        0 <= i < xs.len(),
    ensures
        le32s(xs).len() == 4 * xs.len(),
        le32s(xs).subrange(4 * i, 4 * i + 4) == le32(xs[i]),
    decreases xs.len(),
{
    lemma_words_len(xs);
    lemma_words_len(xs.drop_last());
    let before = le32s(xs.drop_last());
    if i < xs.len() - 1 {
        lemma_words(xs.drop_last(), i);
        assert(le32s(xs).subrange(4 * i, 4 * i + 4) =~= before.subrange(4 * i, 4 * i + 4));
    } else {
        assert(le32s(xs).subrange(4 * i, 4 * i + 4) =~= le32(xs[i]));
    }
}

proof fn lemma_words_len(xs: Seq<u32>)
    ensures
        le32s(xs).len() == 4 * xs.len(),
    decreases xs.len(),
{
    if xs.len() > 0 {
        lemma_words_len(xs.drop_last());
    }
}

proof fn lemma_tables_len(mc: McView, n: int, k: int)
    requires
        k < n,
        0 < n,
    ensures
        hash_tables(mc, n, k).0.len() == n,
        hash_tables(mc, n, k).1.len() == n,
    decreases k,
{
    if k > 0 {
        lemma_tables_len(mc, n, k - 1);
    }
}

proof fn lemma_read_word(img: Seq<u8>, start: int, d: Seq<u8>, at: int, v: u32)
    requires
        0 <= start,
        start + d.len() <= img.len(),
        img.subrange(start, start + d.len()) == d,
        0 <= at,
        at + 4 <= d.len(),
        d.subrange(at, at + 4) == le32(v),
    ensures
        u32_at(img, start + at) == v,
{
    assert(img.subrange(start + at, start + at + 4) =~= le32(v)) by {
        assert forall|j: int| 0 <= j < 4 implies img.subrange(start + at, start + at + 4)[j]
            == le32(v)[j] by {
            assert(d.subrange(at, at + 4)[j] == d[at + j]);
            assert(img.subrange(start, start + d.len())[at + j] == img[start + (at + j)]);
        }
    }
    lemma_u32_at(img, start + at, v);
}

/// The hash table in the image: as many buckets as chain links, one for each
/// symbol and one for the null symbol, the buckets first.
#[verifier::spinoff_prover]
#[verifier::rlimit(40)]
pub proof fn hash_table_stands_in_the_image(mc: McView, version: u16, i: int)
    requires
        shared_ready(mc),
        windows_inside(mc),
        0 <= i <= symbols(mc),
    ensures
        ({
            let img = image_of(mc, version);
            let h = dyn_value(img, 0);
            let n = symbols(mc) + 1;
            let (buckets, chains) = hash_tables(mc, n, symbols(mc));
            &&& dyn_tag(img, 0) == 4
            &&& u32_at(img, h) == n
            &&& u32_at(img, h + 4) == n
            &&& u32_at(img, h + 8 + 4 * i) == buckets[i]
            &&& u32_at(img, h + 8 + 4 * n + 4 * i) == chains[i]
        }),
{
    let img = image_of(mc, version);
    let n = symbols(mc) + 1;
    let (buckets, chains) = hash_tables(mc, n, symbols(mc));
    let at = lemma_stand(mc, version);
    lemma_tables_len(mc, n, symbols(mc));
    let d = hash_bytes(mc);
    assert(d == le32(n as u32) + le32(n as u32) + le32s(buckets) + le32s(chains)) by {
        reveal(hash_bytes);
    }
    lemma_hash_words(img, at.2, d, n, buckets, chains, i);
}

proof fn lemma_hash_words(
    img: Seq<u8>,
    start: int,
    d: Seq<u8>,
    n: int,
    buckets: Seq<u32>,
    chains: Seq<u32>,
    i: int,
)
    requires
        0 <= i < n <= u32::MAX,
        buckets.len() == n,
        chains.len() == n,
        d == le32(n as u32) + le32(n as u32) + le32s(buckets) + le32s(chains),
        0 <= start,
        start + 8 * n + 8 <= img.len(),
        img.subrange(start, start + 8 * n + 8) == d,
    ensures
        u32_at(img, start) == n,
        u32_at(img, start + 4) == n,
        u32_at(img, start + 8 + 4 * i) == buckets[i],
        u32_at(img, start + 8 + 4 * n + 4 * i) == chains[i],
{
    let a = le32s(buckets);
    let b = le32s(chains);
    let w = le32(n as u32);
    lemma_words(buckets, i);
    lemma_words(chains, i);
    assert(w.len() == 4);
    assert(d.len() == 8 + 8 * n);
    assert(d.subrange(0, 4) =~= w);
    assert(d.subrange(4, 8) =~= w);
    assert(d.subrange(8 + 4 * i, 8 + 4 * i + 4) =~= a.subrange(4 * i, 4 * i + 4));
    assert(d.subrange(8 + 4 * n + 4 * i, 8 + 4 * n + 4 * i + 4) =~= b.subrange(
        4 * i,
        4 * i + 4,
    ));
    lemma_read_word(img, start, d, 0, n as u32);
    lemma_read_word(img, start, d, 4, n as u32);
    lemma_read_word(img, start, d, 8 + 4 * i, buckets[i]);
    lemma_read_word(img, start, d, 8 + 4 * n + 4 * i, chains[i]);
}

} // verus!
