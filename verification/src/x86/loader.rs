//! What a buffer holds: source text, or bytecode behind the marker of the
//! tool chain.
//!
//! Unix kernels execute `#!` interpreter lines, so saved bytecode may carry
//! one in front; files that the tool chain emits have a jump in front of the
//! marker.
use crate::container::{JUMP_OVER_MAGIC, MAGIC};
use crate::target::InputKind;
use vstd::prelude::*;

verus! {

/// The input classifier.
#[derive(Debug, Clone, Copy)]
pub struct Loader;

pub const LOADER: Loader = Loader;

/// Whether `m` stands at `at` in `b`.
pub open spec fn stands_at(b: Seq<u8>, at: int, m: Seq<u8>) -> bool {
    0 <= at && at + m.len() <= b.len() && b.subrange(at, at + m.len()) == m
}

/// Where the first line ends: behind its line feed. `None` without one.
pub open spec fn line_end(b: Seq<u8>, from: int) -> Option<int>
    decreases b.len() - from,
{
    if from >= b.len() {
        None
    } else if b[from] == 0x0A {
        Some(from + 1)
    } else {
        line_end(b, from + 1)
    }
}

/// Where the content starts: behind an interpreter line. `None` where that
/// line does not end.
pub open spec fn content_start(b: Seq<u8>) -> Option<int> {
    if stands_at(b, 0, seq![0x23u8, 0x21]) {
        line_end(b, 0)
    } else {
        Some(0)
    }
}

/// What `b` holds: bytecode, if the marker stands where the content starts,
/// with or without the jump in front; its payload is behind the marker.
pub open spec fn kind_of(b: Seq<u8>) -> InputKind {
    match content_start(b) {
        Some(start) => {
            let at = if stands_at(b, start, JUMP_OVER_MAGIC@) {
                start + 2
            } else {
                start
            };
            if stands_at(b, at, MAGIC@) {
                InputKind::Bytecode { payload_start: (at + 8) as usize }
            } else {
                InputKind::Source
            }
        },
        None => InputKind::Source,
    }
}

proof fn lemma_line_end(b: Seq<u8>, from: int)
    requires
        0 <= from,
    ensures
        line_end(b, from) matches Some(e) ==> from < e <= b.len(),
    decreases b.len() - from,
{
    if from < b.len() && b[from] != 0x0A {
        lemma_line_end(b, from + 1);
    }
}

fn standing_at(b: &[u8], at: usize, m: &[u8]) -> (r: bool)
    ensures
        r == stands_at(b@, at as int, m@),
{
    if at > b.len() || b.len() - at < m.len() {
        return false;
    }
    let mut k: usize = 0;
    while k < m.len()
        invariant
            k <= m@.len(),
            at + m@.len() <= b.len(),
            forall|j: int| at <= j < at + k ==> #[trigger] b@[j] == m@[j - at],
        decreases m.len() - k,
    {
        if b[at + k] != m[k] {
            proof {
                assert(b@.subrange(at as int, at + m@.len())[k as int] != m@[k as int]);
            }
            return false;
        }
        k += 1;
    }
    proof {
        assert(b@.subrange(at as int, at + m@.len()) =~= m@);
    }
    true
}

impl Loader {
    /// What `bytes` hold.
    pub fn sniff(&self, bytes: &[u8]) -> (r: InputKind)
        ensures
            r == kind_of(bytes@),
    {
        let mut at: usize = 0;
        let shebang: [u8; 2] = [0x23, 0x21];
        proof {
            assert(shebang@ =~= seq![0x23u8, 0x21]);
        }
        if standing_at(bytes, 0, shebang.as_slice()) {
            while at < bytes.len() && bytes[at] != 0x0A
                invariant
                    at <= bytes@.len(),
                    line_end(bytes@, 0) == line_end(bytes@, at as int),
                decreases bytes.len() - at,
            {
                at += 1;
            }
            if at >= bytes.len() {
                return InputKind::Source;
            }
            at += 1;
        }
        if standing_at(bytes, at, JUMP_OVER_MAGIC.as_slice()) {
            at += 2;
        }
        if standing_at(bytes, at, MAGIC.as_slice()) {
            InputKind::Bytecode { payload_start: at + 8 }
        } else {
            InputKind::Source
        }
    }
}

/// A payload starts behind the marker, within the buffer.
pub proof fn payload_follows_marker(b: Seq<u8>)
    ensures
        b.len() <= usize::MAX && kind_of(b) is Bytecode ==> {
            let start = kind_of(b)->payload_start as int;
            start <= b.len() && stands_at(b, start - 8, MAGIC@)
        },
{
    lemma_line_end(b, 0);
}

/// Bytecode is still bytecode, with its payload moved along, when an
/// interpreter line is put in front of it.
pub proof fn interpreter_line_is_skipped(line: Seq<u8>, b: Seq<u8>)
    requires
        line.len() >= 3,
        stands_at(line, 0, seq![0x23u8, 0x21]),
        line.last() == 0x0A,
        forall|i: int| 0 <= i < line.len() - 1 ==> #[trigger] line[i] != 0x0A,
        !stands_at(b, 0, seq![0x23u8, 0x21]),
        line.len() + b.len() <= usize::MAX,
    ensures
        match kind_of(b) {
            InputKind::Bytecode { payload_start } => kind_of(line + b) == (InputKind::Bytecode {
                payload_start: (line.len() + payload_start) as usize,
            }),
            InputKind::Source => kind_of(line + b) == InputKind::Source,
        },
{
    let c = line + b;
    assert(c.subrange(0, 2) =~= line.subrange(0, 2));
    lemma_first_line(line, b, 0);
    lemma_stands_behind(line, b, 0, JUMP_OVER_MAGIC@);
    lemma_stands_behind(line, b, 0, MAGIC@);
    lemma_stands_behind(line, b, 2, MAGIC@);
}

proof fn lemma_first_line(line: Seq<u8>, b: Seq<u8>, from: int)
    requires
        0 <= from < line.len(),
        line.last() == 0x0A,
        forall|i: int| 0 <= i < line.len() - 1 ==> #[trigger] line[i] != 0x0A,
    ensures
        line_end(line + b, from) == Some(line.len() as int),
    decreases line.len() - from,
{
    assert((line + b)[from] == line[from]);
    if from < line.len() - 1 {
        lemma_first_line(line, b, from + 1);
    }
}

proof fn lemma_stands_behind(line: Seq<u8>, b: Seq<u8>, at: int, m: Seq<u8>)
    requires
        0 <= at,
    ensures
        stands_at(line + b, line.len() + at, m) == stands_at(b, at, m),
{
    let c = line + b;
    let n = line.len() as int;
    if at + m.len() <= b.len() {
        assert(c.subrange(n + at, n + at + m.len()) =~= b.subrange(at, at + m.len()));
    }
}

} // verus!
