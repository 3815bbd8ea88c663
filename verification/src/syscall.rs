//! System calls: which request a call number and its arguments make, and
//! what each request answers.
use vstd::prelude::*;
use crate::filesystem::file_descriptor::{FdTable, VolumeEntry, FIRST_FD, read, close, open, opened_as};

verus! {

/// What a failed call returns (`-1` as an unsigned register).
pub const CALL_FAILED: u64 = 0xFFFF_FFFF_FFFF_FFFF;

/// The registers saved when entering a program, restored when it exits.
#[derive(Default, Clone, Copy)]
pub struct KernelContext {
    pub rsp: u64,
    pub rbp: u64,
    pub rbx: u64,
    pub r12: u64,
    pub r13: u64,
    pub r14: u64,
    pub r15: u64,
    pub rip: u64,
}

/// A decoded system call.
#[derive(Debug, Clone, Copy, PartialEq, Eq, Structural)]
pub enum Syscall {
    Read { fd: u64, buf: u64, count: u64 },
    Write { fd: u64, buf: u64, count: u64 },
    Open { path: u64, flags: u64 },
    Close { fd: u64 },
    Exit { status: u64 },
    GetDents64 { fd: u64, buf: u64, count: u64 },
    /// A number with no call behind it; it is answered with [`CALL_FAILED`].
    Unsupported,
}

/// Decodes a call number and its arguments (Linux's numbering).
pub fn dispatch(number: u64, arg1: u64, arg2: u64, arg3: u64, _arg4: u64, _arg5: u64, _arg6: u64) -> (r: Syscall)
    ensures
        r == match number {
            0 => Syscall::Read { fd: arg1, buf: arg2, count: arg3 },
            1 => Syscall::Write { fd: arg1, buf: arg2, count: arg3 },
            2 => Syscall::Open { path: arg1, flags: arg2 },
            3 => Syscall::Close { fd: arg1 },
            60 => Syscall::Exit { status: arg1 },
            217 => Syscall::GetDents64 { fd: arg1, buf: arg2, count: arg3 },
            _ => Syscall::Unsupported,
        },
{
    match number {
        0 => Syscall::Read { fd: arg1, buf: arg2, count: arg3 },
        1 => Syscall::Write { fd: arg1, buf: arg2, count: arg3 },
        2 => Syscall::Open { path: arg1, flags: arg2 },
        3 => Syscall::Close { fd: arg1 },
        60 => Syscall::Exit { status: arg1 },
        217 => Syscall::GetDents64 { fd: arg1, buf: arg2, count: arg3 },
        _ => Syscall::Unsupported,
    }
}

/// `read`: the number of bytes read, or [`CALL_FAILED`] for a descriptor
/// that is not open.
pub fn sys_read(table: &mut FdTable, fd: u64, buf: &mut [u8]) -> (r: u64)
    requires
        old(buf)@.len() <= isize::MAX,
    ensures
        !old(table)@.contains_key(fd) ==> r == CALL_FAILED && final(table)@ == old(table)@ && final(buf)@ == old(buf)@,
        old(table)@.contains_key(fd) ==> {
            let f = old(table)@[fd];
            let n = crate::filesystem::file_descriptor::read_span(f, old(buf)@.len() as int);
            &&& r == n
            &&& final(buf)@ == f.data@.subrange(f.offset as int, f.offset + n) + old(buf)@.skip(n)
            &&& final(table)@ == old(table)@.insert(fd, crate::filesystem::file_descriptor::FileDescriptor { offset: (f.offset + n) as usize, ..f })
        },
{
    let n = read(table, fd, buf);
    if n < 0 {
        CALL_FAILED
    } else {
        n as u64
    }
}

/// `write`: standard output and error accept the whole buffer; any other
/// descriptor is refused with [`CALL_FAILED`].
pub fn sys_write(fd: u64, count: u64) -> (r: u64)
    ensures
        r == if fd == 1 || fd == 2 { count } else { CALL_FAILED },
{
    if fd == 1 || fd == 2 {
        count
    } else {
        CALL_FAILED
    }
}

/// `open`: the new descriptor, or [`CALL_FAILED`] when the path names nothing.
pub fn sys_open(table: &mut FdTable, path: &str, found: VolumeEntry) -> (r: u64)
    requires
        old(table)@.len() < u64::MAX - FIRST_FD,
    ensures
        (found is Missing) ==> r == CALL_FAILED && final(table)@ == old(table)@,
        !(found is Missing) ==> opened_as(old(table)@, final(table)@, r, path@, found),
{
    match open(table, path, found) {
        Some(fd) => fd,
        None => CALL_FAILED,
    }
}

/// `close`: 0 when the descriptor was open, [`CALL_FAILED`] otherwise.
pub fn sys_close(table: &mut FdTable, fd: u64) -> (r: u64)
    ensures
        r == if old(table)@.contains_key(fd) { 0 } else { CALL_FAILED },
        final(table)@ == old(table)@.remove(fd),
{
    let r = close(table, fd);
    if r == 0 {
        0
    } else {
        CALL_FAILED
    }
}

/// `getdents64` lists a directory only when `fd` is an open directory: the
/// path it was opened by.
pub fn getdents_path(table: &FdTable, fd: u64) -> (r: Option<String>)
    ensures
        match r {
            Some(p) => table@.contains_key(fd) && table@[fd].is_dir && p@ == table@[fd].path@,
            None => !(table@.contains_key(fd) && table@[fd].is_dir),
        },
{
    match table.get(fd) {
        Some(f) => {
            if f.is_dir {
                Some(f.path.clone())
            } else {
                None
            }
        },
        None => None,
    }
}

/// The answer to a call that needs neither the running program's memory
/// nor the volume: `write` (the bytes themselves are shown by the caller
/// when the answer is not [`CALL_FAILED`]), `close`, and numbers with no
/// call behind them. The other calls (`read`, `open`, `getdents64`, `exit`)
/// get `None` here and leave the table as it is; they are carried out with
/// what they need.
pub fn answer(table: &mut FdTable, call: Syscall) -> (r: Option<u64>)
    ensures
        match call {
            Syscall::Write { fd, buf: _, count } => r == Some(if fd == 1 || fd == 2 { count } else { CALL_FAILED })
                && final(table)@ == old(table)@,
            Syscall::Close { fd } => r == Some(if old(table)@.contains_key(fd) { 0u64 } else { CALL_FAILED })
                && final(table)@ == old(table)@.remove(fd),
            Syscall::Unsupported => r == Some(CALL_FAILED) && final(table)@ == old(table)@,
            _ => r is None && final(table)@ == old(table)@,
        },
{
    match call {
        Syscall::Write { fd, buf: _, count } => Some(sys_write(fd, count)),
        Syscall::Close { fd } => Some(sys_close(table, fd)),
        Syscall::Unsupported => Some(CALL_FAILED),
        _ => None,
    }
}

} // verus!
