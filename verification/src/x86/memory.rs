//! Executable pages: which system calls map, protect and unmap them, and what
//! the kernel's answers mean.
//!
//! Pages are mapped readable and writable, filled, and then made readable and
//! executable; no request asks for a page that is both writable and executable.
use vstd::prelude::*;

verus! {

pub const SYS_MMAP: isize = 9;

pub const SYS_MPROTECT: isize = 10;

pub const SYS_MUNMAP: isize = 11;

pub const PROT_READ: isize = 1;

pub const PROT_WRITE: isize = 2;

pub const PROT_EXEC: isize = 4;

/// `MAP_PRIVATE` and `MAP_ANONYMOUS`.
pub const MAP_FLAGS: isize = 0x22;

/// The memory manager.
#[derive(Debug, Clone, Copy)]
pub struct Memory;

pub const MEMORY: Memory = Memory;

/// A system call: its number and its six arguments.
#[derive(Debug, Clone, Copy, PartialEq, Eq, Structural)]
pub struct Request {
    pub number: isize,
    pub a: isize,
    pub b: isize,
    pub c: isize,
    pub d: isize,
    pub e: isize,
    pub f: isize,
}

/// An error number of the kernel.
#[derive(Debug, Clone, Copy, PartialEq, Eq, Structural)]
pub struct Errno(pub i32);

/// Whether `ret` is an error.
pub open spec fn is_error(ret: isize) -> bool {
    -4095 <= ret <= -1
}

/// What the kernel's answer means: an error number for -4095 to -1, else a
/// value.
pub fn check(ret: isize) -> (r: Result<usize, Errno>)
    ensures
        r == if is_error(ret) {
            Err::<usize, Errno>(Errno((-ret) as i32))
        } else {
            Ok::<usize, Errno>(ret as usize)
        },
{
    if ret >= -4095 && ret < 0 {
        Err(Errno((-ret) as i32))
    } else {
        Ok(ret as usize)
    }
}

/// What `r` asks of pages: whether they are to be readable, writable and
/// executable.
pub open spec fn wants(r: Request) -> (bool, bool, bool) {
    if r.number == SYS_MMAP || r.number == SYS_MPROTECT {
        (r.c % 2 == 1, r.c / 2 % 2 == 1, r.c / 4 % 2 == 1)
    } else {
        (false, false, false)
    }
}

impl Memory {
    /// Asks for `len` fresh readable and writable bytes anywhere.
    pub fn map_request(&self, len: usize) -> (r: Request)
        ensures
            r == (Request {
                number: SYS_MMAP,
                a: 0, b: len as isize, c: 3, d: MAP_FLAGS, e: -1isize, f: 0,
            }),
            wants(r) == (true, true, false),
    {
        Request {
            number: SYS_MMAP,
            a: 0, b: len as isize, c: PROT_READ + PROT_WRITE, d: MAP_FLAGS, e: -1isize, f: 0,
        }
    }

    /// The address of the fresh bytes.
    pub fn mapped(&self, ret: isize) -> (r: Result<u64, Errno>)
        ensures
            r == if is_error(ret) {
                Err::<u64, Errno>(Errno((-ret) as i32))
            } else {
                Ok::<u64, Errno>((ret as usize) as u64)
            },
    {
        match check(ret) {
            Ok(p) => Ok(p as u64),
            Err(e) => Err(e),
        }
    }

    /// Asks for `len` bytes at `addr` to be readable and executable, and no
    /// longer writable.
    pub fn protect_request(&self, addr: u64, len: usize) -> (r: Request)
        ensures
            r == (Request {
                number: SYS_MPROTECT,
                a: addr as isize, b: len as isize, c: 5, d: 0, e: 0, f: 0,
            }),
            wants(r) == (true, false, true),
    {
        Request {
            number: SYS_MPROTECT,
            a: addr as isize, b: len as isize, c: PROT_READ + PROT_EXEC, d: 0, e: 0, f: 0,
        }
    }

    /// Whether the protection was changed.
    pub fn protected(&self, ret: isize) -> (r: Result<(), Errno>)
        ensures
            r == if is_error(ret) {
                Err::<(), Errno>(Errno((-ret) as i32))
            } else {
                Ok::<(), Errno>(())
            },
    {
        match check(ret) {
            Ok(_) => Ok(()),
            Err(e) => Err(e),
        }
    }

    /// Gives back `len` bytes at `addr`.
    pub fn unmap_request(&self, addr: u64, len: usize) -> (r: Request)
        ensures
            r == (Request {
                number: SYS_MUNMAP,
                a: addr as isize, b: len as isize, c: 0, d: 0, e: 0, f: 0,
            }),
            wants(r) == (false, false, false),
    {
        Request { number: SYS_MUNMAP, a: addr as isize, b: len as isize, c: 0, d: 0, e: 0, f: 0 }
    }
}

} // verus!
