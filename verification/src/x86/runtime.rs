//! The hand-written machine code that programs call at run time.
use vstd::prelude::*;

verus! {

/// The helper snippets, each a position-independent routine, and the places
/// in them that take an address.
#[derive(Debug, Clone)]
pub struct Runtime {
    /// Writes the integer in `rax` to standard output.
    pub itoa: Vec<u8>,
    /// Writes the integer in `rax` to standard error.
    pub itoa_err: Vec<u8>,
    /// Reads an integer from standard input into `rax`.
    pub scan_int: Vec<u8>,
    pub retain: Vec<u8>,
    pub release: Vec<u8>,
    /// Where `release` takes the heap base.
    pub release_heapbase_offset: usize,
    pub alloc_revised: Vec<u8>,
    /// Where `alloc_revised` takes the heap base.
    pub alloc_revised_heapbase_offset: usize,
    pub exc_enter: Vec<u8>,
    pub exc_pop: Vec<u8>,
    pub exc_load: Vec<u8>,
    pub exc_clear: Vec<u8>,
    pub exc_throw: Vec<u8>,
    pub exc_rethrow: Vec<u8>,
    /// Where each of the exception routines takes the state block.
    pub exc_base_offset: usize,
    /// Size of the state block.
    pub exc_state_size: usize,
}

impl Runtime {
    /// Whether every place that takes an address lies within its snippet.
    pub open spec fn ok(self) -> bool {
        &&& self.release_heapbase_offset + 8 <= self.release@.len()
        &&& self.alloc_revised_heapbase_offset + 8 <= self.alloc_revised@.len()
        &&& self.exc_base_offset + 8 <= self.exc_enter@.len()
        &&& self.exc_base_offset + 8 <= self.exc_pop@.len()
        &&& self.exc_base_offset + 8 <= self.exc_load@.len()
        &&& self.exc_base_offset + 8 <= self.exc_clear@.len()
        &&& self.exc_base_offset + 8 <= self.exc_throw@.len()
        &&& self.exc_base_offset + 8 <= self.exc_rethrow@.len()
    }

    /// Whether `ok` holds.
    pub fn is_ok(&self) -> (r: bool)
        ensures
            r == self.ok(),
    {
        fits(self.release_heapbase_offset, &self.release) && fits(
            self.alloc_revised_heapbase_offset,
            &self.alloc_revised,
        ) && fits(self.exc_base_offset, &self.exc_enter) && fits(
            self.exc_base_offset,
            &self.exc_pop,
        ) && fits(self.exc_base_offset, &self.exc_load) && fits(
            self.exc_base_offset,
            &self.exc_clear,
        ) && fits(self.exc_base_offset, &self.exc_throw) && fits(
            self.exc_base_offset,
            &self.exc_rethrow,
        )
    }
}

fn fits(at: usize, snippet: &Vec<u8>) -> (r: bool)
    ensures
        r == (at + 8 <= snippet@.len()),
{
    snippet.len() >= 8 && at <= snippet.len() - 8
}

} // verus!
